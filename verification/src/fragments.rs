//! Compact training data: one fixed-size record per position, three splits.

use vstd::prelude::*;
use vstd::slice::slice_subrange;

use crate::board::Board;
use crate::bytes::{
    has_magic, le16, le16_bytes, le16_reads_back, le32, le32_bytes, le32_reads_back, le64,
    le64_bytes, push_bytes, push_u16, push_u32, push_u64, read_u16, read_u32, read_u64,
};
use crate::features::{
    boundaries, boundary_between, count_letters, is_open, open_cells, seen_letter, seen_letters,
    times, InputMode,
};
use crate::native::string_views;
use crate::pieces::{letters_valid, Piece};
use crate::random::{split_index, split_of};
use crate::records::{BoardView, PieceView};
use crate::source::{
    piece_fault, read_piece, read_rows, text_bytes, written_kind, written_rows, SourceFault,
};

verus! {

pub const RECORD_BYTES: usize = 272;

pub const DATA_HEADER_BYTES: usize = 64;

/// The first eight bytes of a split: KVFRAG1 and a zero.
pub const DATA_MAGIC: [u8; 8] = [0x4b, 0x56, 0x46, 0x52, 0x41, 0x47, 0x31, 0];

// ---------------------------------------------------------------------------
// Records
// ---------------------------------------------------------------------------

/// What was gained within a number of moves.
#[derive(Clone, Copy, Debug)]
pub struct SourceDelta {
    pub score: u32,
    pub lines: u16,
    pub words: u16,
    pub word_length: u16,
}

/// A position of a game with what came of it, as a run has written it.
pub struct SourceRecord {
    pub lexicon: String,
    pub seed: u32,
    pub depth: u8,
    pub board: BoardView,
    pub active: PieceView,
    pub next: Vec<PieceView>,
    pub lines: u8,
    pub four: SourceDelta,
    pub eight: SourceDelta,
    pub sixteen: SourceDelta,
}

/// What is wrong with a record.
#[derive(Clone, Copy, Debug, PartialEq, Eq, Structural)]
pub enum RecordFault {
    Dimensions,
    Board(SourceFault),
    /// The piece in play is number zero.
    Piece(usize, SourceFault),
    Lexicon,
}

/// The number of a lexicon.
pub open spec fn lexicon_number(name: Seq<char>) -> Option<u8> {
    if name == "CSW24"@ {
        Some(0u8)
    } else if name == "NWL23"@ {
        Some(1u8)
    } else {
        None
    }
}

/// The number of a lexicon; nothing for an unknown one.
pub fn lexicon_id(name: &String) -> (number: Option<u8>)
    ensures
        number == lexicon_number(name@),
{
    if *name == "CSW24".to_owned() {
        Some(0)
    } else if *name == "NWL23".to_owned() {
        Some(1)
    } else {
        None
    }
}

/// The bytes of a written piece: its tetromino, then its letters.
pub open spec fn piece_bytes(view: PieceView) -> Seq<u8> {
    let kind = match written_kind(text_bytes(view.piece@)) {
        Ok(kind) => kind,
        Err(_) => 0u8,
    };
    let letters = text_bytes(view.letters@);
    seq![kind] + Seq::new(4, |i: int| (letters[i] - 0x40) as u8)
}

pub open spec fn view_fault(view: PieceView) -> Option<SourceFault> {
    piece_fault(text_bytes(view.piece@), text_bytes(view.letters@), true)
}

/// The first fault among the first `count` pieces that come next.
pub open spec fn next_fault(next: Seq<PieceView>, count: int) -> Option<RecordFault>
    decreases count,
{
    if count <= 0 {
        None
    } else {
        match next_fault(next, count - 1) {
            Some(fault) => Some(fault),
            None => match view_fault(next[count - 1]) {
                Some(fault) => Some(RecordFault::Piece(count as usize, fault)),
                None => None,
            },
        }
    }
}

/// The bytes of the first `count` pieces that come next.
pub open spec fn next_bytes(next: Seq<PieceView>, count: int) -> Seq<u8>
    decreases count,
{
    if count <= 0 {
        Seq::empty()
    } else {
        next_bytes(next, count - 1) + piece_bytes(next[count - 1])
    }
}

/// The rows of a record's board.
pub open spec fn record_rows(record: SourceRecord) -> Result<Seq<u8>, SourceFault> {
    written_rows(
        string_views(record.board.letters@),
        string_views(record.board.pieces@),
        false,
        22,
    )
}

/// The first thing that is wrong with a record, if anything is.
pub open spec fn record_fault(record: SourceRecord) -> Option<RecordFault> {
    if record.board.letters.len() != 22 || record.board.pieces.len() != 22 || record.next.len()
        != 4 {
        Some(RecordFault::Dimensions)
    } else {
        match (record_rows(record), view_fault(record.active), next_fault(record.next@, 4)) {
            (Err(fault), _, _) => Some(RecordFault::Board(fault)),
            (_, Some(fault), _) => Some(RecordFault::Piece(0, fault)),
            (_, _, Some(fault)) => Some(fault),
            _ => if lexicon_number(record.lexicon@).is_none() {
                Some(RecordFault::Lexicon)
            } else {
                None
            },
        }
    }
}

/// The numbers at the end of a record.
pub open spec fn record_tail(record: SourceRecord, lexicon: u8) -> Seq<u8> {
    seq![record.lines, lexicon, record.depth] + le32_bytes(record.seed as int) + le32_bytes(
        record.four.score as int,
    ) + le32_bytes(record.eight.score as int) + le32_bytes(record.sixteen.score as int)
        + le16_bytes(record.eight.words as int) + le16_bytes(record.eight.lines as int)
        + le16_bytes(record.eight.word_length as int) + seq![0u8, 0u8]
}

/// The bytes of a record in which nothing is wrong.
pub open spec fn record_bytes(record: SourceRecord) -> Seq<u8> {
    let board = match record_rows(record) {
        Ok(cells) => cells,
        Err(_) => Seq::empty(),
    };
    let lexicon = match lexicon_number(record.lexicon@) {
        Some(number) => number,
        None => 0u8,
    };
    board + piece_bytes(record.active) + next_bytes(record.next@, 4) + record_tail(record, lexicon)
}

fn push_piece(output: &mut Vec<u8>, view: &PieceView) -> (result: Result<(), SourceFault>)
    ensures
        match result {
            Ok(_) => {
                &&& view_fault(*view).is_none()
                &&& final(output)@ == old(output)@ + piece_bytes(*view)
            },
            Err(fault) => view_fault(*view) == Some(fault),
        },
{
    match read_piece(view, true) {
        Err(fault) => Err(fault),
        Ok(piece) => {
            output.push(piece.kind);
            push_bytes(output, piece.letters.as_slice());
            assert(output@ =~= old(output)@ + piece_bytes(*view));
            Ok(())
        },
    }
}

proof fn lemma_next_fault_stays(next: Seq<PieceView>, count: int, last: int)
    requires
        0 <= count <= last,
        next_fault(next, count).is_some(),
    ensures
        next_fault(next, last) == next_fault(next, count),
    decreases last - count,
{
    if count < last {
        lemma_next_fault_stays(next, count, last - 1);
    }
}

/// Packs a record into its bytes.
pub fn encode_record(record: &SourceRecord) -> (bytes: Result<Vec<u8>, RecordFault>)
    ensures
        match bytes {
            Ok(found) => {
                &&& record_fault(*record).is_none()
                &&& found@ == record_bytes(*record)
                &&& found.len() == 272
            },
            Err(fault) => record_fault(*record) == Some(fault),
        },
{
    if record.board.letters.len() != 22 || record.board.pieces.len() != 22 || record.next.len()
        != 4 {
        return Err(RecordFault::Dimensions);
    }
    let board: Board = match read_rows(&record.board.letters, &record.board.pieces, false) {
        Ok(board) => board,
        Err(fault) => return Err(RecordFault::Board(fault)),
    };
    let mut output: Vec<u8> = Vec::new();
    push_bytes(&mut output, board.as_slice());
    assert(output@ =~= board@);
    match push_piece(&mut output, &record.active) {
        Err(fault) => return Err(RecordFault::Piece(0, fault)),
        Ok(_) => {},
    }
    let ghost head = output@;
    let mut index: usize = 0;
    assert(output@ =~= head + next_bytes(record.next@, 0));
    while index < 4
        invariant
            index <= 4,
            record.next.len() == 4,
            record.board.letters.len() == 22,
            record.board.pieces.len() == 22,
            record_rows(*record).is_ok(),
            view_fault(record.active).is_none(),
            next_fault(record.next@, index as int).is_none(),
            output@ == head + next_bytes(record.next@, index as int),
            next_bytes(record.next@, index as int).len() == 5 * index,
        decreases 4 - index,
    {
        let ghost before = output@;
        match push_piece(&mut output, &record.next[index]) {
            Err(fault) => {
                proof {
                    lemma_next_fault_stays(record.next@, index + 1, 4);
                }
                return Err(RecordFault::Piece(index + 1, fault));
            },
            Ok(_) => {},
        }
        assert(output@ =~= head + next_bytes(record.next@, index + 1));
        index += 1;
    }
    let lexicon: u8 = match lexicon_id(&record.lexicon) {
        Some(number) => number,
        None => return Err(RecordFault::Lexicon),
    };
    output.push(record.lines);
    output.push(lexicon);
    output.push(record.depth);
    push_u32(&mut output, record.seed);
    push_u32(&mut output, record.four.score);
    push_u32(&mut output, record.eight.score);
    push_u32(&mut output, record.sixteen.score);
    push_u16(&mut output, record.eight.words);
    push_u16(&mut output, record.eight.lines);
    push_u16(&mut output, record.eight.word_length);
    output.push(0);
    output.push(0);
    assert(output@ =~= record_bytes(*record));
    Ok(output)
}

// ---------------------------------------------------------------------------
// Totals
// ---------------------------------------------------------------------------

/// Totals over the records of a split.
#[derive(Clone, Copy, Debug)]
pub struct SplitStats {
    pub records: u64,
    pub csw24_records: u64,
    pub nwl23_records: u64,
    pub scoring_records: u64,
    pub score_4: u64,
    pub score_8: u64,
    pub score_16: u64,
    pub words_8: u64,
    pub lines_8: u64,
}

pub ghost struct StatsModel {
    pub records: int,
    pub csw24_records: int,
    pub nwl23_records: int,
    pub scoring_records: int,
    pub score_4: int,
    pub score_8: int,
    pub score_16: int,
    pub words_8: int,
    pub lines_8: int,
}

pub open spec fn no_stats() -> StatsModel {
    StatsModel {
        records: 0,
        csw24_records: 0,
        nwl23_records: 0,
        scoring_records: 0,
        score_4: 0,
        score_8: 0,
        score_16: 0,
        words_8: 0,
        lines_8: 0,
    }
}

/// The totals of two sets of records together.
pub open spec fn merged(left: StatsModel, right: StatsModel) -> StatsModel {
    StatsModel {
        records: left.records + right.records,
        csw24_records: left.csw24_records + right.csw24_records,
        nwl23_records: left.nwl23_records + right.nwl23_records,
        scoring_records: left.scoring_records + right.scoring_records,
        score_4: left.score_4 + right.score_4,
        score_8: left.score_8 + right.score_8,
        score_16: left.score_16 + right.score_16,
        words_8: left.words_8 + right.words_8,
        lines_8: left.lines_8 + right.lines_8,
    }
}

/// The totals of one record.
pub open spec fn stats_of_one(record: SourceRecord) -> StatsModel {
    StatsModel {
        records: 1,
        csw24_records: if record.lexicon@ == "CSW24"@ {
            1
        } else {
            0
        },
        nwl23_records: if record.lexicon@ != "CSW24"@ && record.lexicon@ == "NWL23"@ {
            1
        } else {
            0
        },
        scoring_records: if record.eight.score > 0 {
            1
        } else {
            0
        },
        score_4: record.four.score as int,
        score_8: record.eight.score as int,
        score_16: record.sixteen.score as int,
        words_8: record.eight.words as int,
        lines_8: record.eight.lines as int,
    }
}

/// The totals of records.
pub open spec fn stats_of(records: Seq<SourceRecord>) -> StatsModel
    decreases records.len(),
{
    if records.len() == 0 {
        no_stats()
    } else {
        merged(stats_of(records.drop_last()), stats_of_one(records.last()))
    }
}

/// Merging the totals of two runs of records gives the totals of both.
pub proof fn merging_adds_up(left: Seq<SourceRecord>, right: Seq<SourceRecord>)
    ensures
        stats_of(left + right) == merged(stats_of(left), stats_of(right)),
    decreases right.len(),
{
    if right.len() == 0 {
        assert(left + right =~= left);
    } else {
        merging_adds_up(left, right.drop_last());
        assert((left + right).drop_last() =~= left + right.drop_last());
    }
}

impl SplitStats {
    pub open spec fn view(&self) -> StatsModel {
        StatsModel {
            records: self.records as int,
            csw24_records: self.csw24_records as int,
            nwl23_records: self.nwl23_records as int,
            scoring_records: self.scoring_records as int,
            score_4: self.score_4 as int,
            score_8: self.score_8 as int,
            score_16: self.score_16 as int,
            words_8: self.words_8 as int,
            lines_8: self.lines_8 as int,
        }
    }

    /// Whether the totals stay within their types when others are added.
    pub open spec fn fits(stats: StatsModel) -> bool {
        &&& stats.records <= u64::MAX
        &&& stats.csw24_records <= u64::MAX
        &&& stats.nwl23_records <= u64::MAX
        &&& stats.scoring_records <= u64::MAX
        &&& stats.score_4 <= u64::MAX
        &&& stats.score_8 <= u64::MAX
        &&& stats.score_16 <= u64::MAX
        &&& stats.words_8 <= u64::MAX
        &&& stats.lines_8 <= u64::MAX
    }

    pub fn empty() -> (stats: Self)
        ensures
            stats@ == no_stats(),
    {
        SplitStats {
            records: 0,
            csw24_records: 0,
            nwl23_records: 0,
            scoring_records: 0,
            score_4: 0,
            score_8: 0,
            score_16: 0,
            words_8: 0,
            lines_8: 0,
        }
    }

    /// Adds a record to the totals.
    pub fn add_record(&mut self, record: &SourceRecord)
        requires
            SplitStats::fits(merged(old(self)@, stats_of_one(*record))),
        ensures
            final(self)@ == merged(old(self)@, stats_of_one(*record)),
    {
        self.records = self.records + 1;
        match lexicon_id(&record.lexicon) {
            Some(number) => if number == 0 {
                self.csw24_records = self.csw24_records + 1;
            } else {
                self.nwl23_records = self.nwl23_records + 1;
            },
            None => {},
        }
        if record.eight.score > 0 {
            self.scoring_records = self.scoring_records + 1;
        }
        self.score_4 = self.score_4 + record.four.score as u64;
        self.score_8 = self.score_8 + record.eight.score as u64;
        self.score_16 = self.score_16 + record.sixteen.score as u64;
        self.words_8 = self.words_8 + record.eight.words as u64;
        self.lines_8 = self.lines_8 + record.eight.lines as u64;
    }

    /// Adds other totals.
    pub fn merge(&mut self, other: SplitStats)
        requires
            SplitStats::fits(merged(old(self)@, other@)),
        ensures
            final(self)@ == merged(old(self)@, other@),
    {
        self.records = self.records + other.records;
        self.csw24_records = self.csw24_records + other.csw24_records;
        self.nwl23_records = self.nwl23_records + other.nwl23_records;
        self.scoring_records = self.scoring_records + other.scoring_records;
        self.score_4 = self.score_4 + other.score_4;
        self.score_8 = self.score_8 + other.score_8;
        self.score_16 = self.score_16 + other.score_16;
        self.words_8 = self.words_8 + other.words_8;
        self.lines_8 = self.lines_8 + other.lines_8;
    }
}

/// The records of a shard, packed and split.
pub struct ShardOutput {
    pub train: Vec<u8>,
    pub validation: Vec<u8>,
    pub test: Vec<u8>,
    pub train_stats: SplitStats,
    pub validation_stats: SplitStats,
    pub test_stats: SplitStats,
}

impl ShardOutput {
    /// The bytes of a split.
    pub open spec fn bytes(&self, split: int) -> Seq<u8> {
        if split == 0 {
            self.train@
        } else if split == 1 {
            self.validation@
        } else {
            self.test@
        }
    }

    /// The totals of a split.
    pub open spec fn stats(&self, split: int) -> StatsModel {
        if split == 0 {
            self.train_stats@
        } else if split == 1 {
            self.validation_stats@
        } else {
            self.test_stats@
        }
    }

    pub fn new() -> (output: Self)
        ensures
            forall|split: int|
                0 <= split < 3 ==> #[trigger] output.bytes(split) == Seq::<u8>::empty(),
            forall|split: int| 0 <= split < 3 ==> #[trigger] output.stats(split) == no_stats(),
    {
        ShardOutput {
            train: Vec::new(),
            validation: Vec::new(),
            test: Vec::new(),
            train_stats: SplitStats::empty(),
            validation_stats: SplitStats::empty(),
            test_stats: SplitStats::empty(),
        }
    }

    /// Packs a record into the split that its episode belongs to; a faulty record
    /// changes nothing.
    pub fn push_record(&mut self, record: &SourceRecord) -> (result: Result<(), RecordFault>)
        requires
            forall|split: int|
                0 <= split < 3 ==> SplitStats::fits(
                    merged(#[trigger] old(self).stats(split), stats_of_one(*record)),
                ),
        ensures
            match result {
                Ok(_) => {
                    let split = split_of(record.seed);
                    &&& record_fault(*record).is_none()
                    &&& final(self).bytes(split) == old(self).bytes(split) + record_bytes(*record)
                    &&& final(self).stats(split) == merged(
                        old(self).stats(split),
                        stats_of_one(*record),
                    )
                    &&& forall|other: int|
                        0 <= other < 3 && other != split ==> #[trigger] final(self).bytes(other)
                            == old(self).bytes(other)
                    &&& forall|other: int|
                        0 <= other < 3 && other != split ==> #[trigger] final(self).stats(other)
                            == old(self).stats(other)
                },
                Err(fault) => {
                    &&& record_fault(*record) == Some(fault)
                    &&& *final(self) == *old(self)
                },
            },
    {
        let bytes: Vec<u8> = match encode_record(record) {
            Ok(bytes) => bytes,
            Err(fault) => return Err(fault),
        };
        let split: usize = split_index(record.seed);
        proof {
            assert(SplitStats::fits(merged(self.stats(split as int), stats_of_one(*record))));
        }
        if split == 0 {
            push_bytes(&mut self.train, bytes.as_slice());
            self.train_stats.add_record(record);
        } else if split == 1 {
            push_bytes(&mut self.validation, bytes.as_slice());
            self.validation_stats.add_record(record);
        } else {
            push_bytes(&mut self.test, bytes.as_slice());
            self.test_stats.add_record(record);
        }
        Ok(())
    }
}

// ---------------------------------------------------------------------------
// Splits as files
// ---------------------------------------------------------------------------

/// The header of a split with so many records.
pub open spec fn split_header(records: int) -> Seq<u8> {
    DATA_MAGIC@ + le32_bytes(1) + le32_bytes(272) + le64_bytes(records) + Seq::new(
        40,
        |i: int| 0u8,
    )
}

/// Counts the records that are appended to a split.
#[derive(Clone, Copy, Debug)]
pub struct SplitCounter {
    pub records: u64,
}

impl SplitCounter {
    pub fn new() -> (counter: Self)
        ensures
            counter.records == 0,
    {
        SplitCounter { records: 0 }
    }

    /// Counts whole records; refuses bytes that end within one.
    pub fn append(&mut self, bytes: &[u8]) -> (aligned: bool)
        requires
            old(self).records + bytes.len() / 272 <= u64::MAX,
        ensures
            aligned == (bytes.len() % 272 == 0),
            final(self).records == old(self).records + (if aligned {
                bytes.len() as int / 272
            } else {
                0
            }),
    {
        if bytes.len() % RECORD_BYTES != 0 {
            return false;
        }
        self.records = self.records + (bytes.len() / RECORD_BYTES) as u64;
        true
    }

    /// The header of the split.
    pub fn header(&self) -> (bytes: Vec<u8>)
        ensures
            bytes@ == split_header(self.records as int),
            bytes.len() == 64,
    {
        let mut bytes: Vec<u8> = Vec::new();
        push_bytes(&mut bytes, DATA_MAGIC.as_slice());
        push_u32(&mut bytes, 1);
        push_u32(&mut bytes, 272);
        push_u64(&mut bytes, self.records);
        let padding: [u8; 40] = [0u8; 40];
        push_bytes(&mut bytes, padding.as_slice());
        assert(padding@ =~= Seq::new(40, |i: int| 0u8));
        assert(bytes@ =~= split_header(self.records as int));
        bytes
    }
}

/// What is wrong with a file of records.
#[derive(Clone, Copy, Debug, PartialEq, Eq, Structural)]
pub enum DataFault {
    Magic,
    Version(u32, u32),
    Length,
}

/// What is wrong with a split, if anything is.
pub open spec fn split_fault(bytes: Seq<u8>) -> Option<DataFault> {
    if bytes.len() < 64 || bytes.take(8) != DATA_MAGIC@ {
        Some(DataFault::Magic)
    } else if le32(bytes, 8) != 1 || le32(bytes, 12) != 272 {
        Some(DataFault::Version(le32(bytes, 8) as u32, le32(bytes, 12) as u32))
    } else if bytes.len() != 64 + 272 * le64(bytes, 16) {
        Some(DataFault::Length)
    } else {
        None
    }
}

/// Checks a split and tells how many records it has.
pub fn open_split(bytes: &[u8]) -> (records: Result<usize, DataFault>)
    ensures
        match records {
            Ok(count) => split_fault(bytes@).is_none() && count == le64(bytes@, 16)
                && bytes.len() == 64 + 272 * count,
            Err(fault) => split_fault(bytes@) == Some(fault),
        },
{
    if bytes.len() < DATA_HEADER_BYTES || !has_magic(bytes, &DATA_MAGIC) {
        return Err(DataFault::Magic);
    }
    let version: u32 = read_u32(bytes, 8);
    let width: u32 = read_u32(bytes, 12);
    let records: u64 = read_u64(bytes, 16);
    if version != 1 || width != 272 {
        return Err(DataFault::Version(version, width));
    }
    if bytes.len() as u128 != 64 + 272 * records as u128 {
        return Err(DataFault::Length);
    }
    Ok(records as usize)
}

/// The bytes of record number `index`.
pub open spec fn record_at(bytes: Seq<u8>, index: int) -> Seq<u8> {
    bytes.subrange(64 + 272 * index, 64 + 272 * index + 272)
}

/// The bytes of record number `index`.
pub fn split_record(bytes: &[u8], index: usize) -> (record: &[u8])
    requires
        64 + 272 * index + 272 <= bytes.len(),
    ensures
        record@ == record_at(bytes@, index as int),
        record.len() == 272,
{
    slice_subrange(bytes, 64 + 272 * index, 64 + 272 * index + 272)
}

/// Which lexicon's records are used.
#[derive(Clone, Copy, Debug, PartialEq, Eq, Structural)]
pub enum LexiconFilter {
    All,
    Csw24,
    Nwl23,
}

impl LexiconFilter {
    pub open spec fn admits(self, record: Seq<u8>) -> bool {
        match self {
            LexiconFilter::All => true,
            LexiconFilter::Csw24 => record[246] == 0,
            LexiconFilter::Nwl23 => record[246] == 1,
        }
    }

    pub fn matches_record(self, record: &[u8]) -> (admitted: bool)
        requires
            record.len() == 272,
        ensures
            admitted == self.admits(record@),
    {
        match self {
            LexiconFilter::All => true,
            LexiconFilter::Csw24 => record[246] == 0,
            LexiconFilter::Nwl23 => record[246] == 1,
        }
    }
}

/// The numbers of the admitted ones among the first `count` records.
pub open spec fn admitted(bytes: Seq<u8>, filter: LexiconFilter, count: int) -> Seq<int>
    decreases count,
{
    if count <= 0 {
        Seq::empty()
    } else if filter.admits(record_at(bytes, count - 1)) {
        admitted(bytes, filter, count - 1).push(count - 1)
    } else {
        admitted(bytes, filter, count - 1)
    }
}

/// The numbers of the first `limit` admitted records.
pub fn split_indices(bytes: &[u8], records: usize, filter: LexiconFilter, limit: usize) -> (indices:
    Vec<u32>)
    requires
        bytes.len() == 64 + 272 * records,
        records <= u32::MAX,
    ensures
        ({
            let found = crate::ranking::first_items(
                admitted(bytes@, filter, records as int),
                limit as int,
            );
            &&& indices.len() == found.len()
            &&& forall|i: int| 0 <= i < found.len() ==> #[trigger] indices@[i] == found[i]
        }),
        forall|i: int| 0 <= i < indices.len() ==> #[trigger] indices@[i] < records,
{
    let mut indices: Vec<u32> = Vec::new();
    let mut index: usize = 0;
    while index < records
        invariant
            index <= records <= u32::MAX,
            bytes.len() == 64 + 272 * records,
            indices.len() == crate::ranking::first_items(
                admitted(bytes@, filter, index as int),
                limit as int,
            ).len(),
            forall|i: int|
                0 <= i < indices.len() ==> #[trigger] indices@[i] == admitted(
                    bytes@,
                    filter,
                    index as int,
                )[i],
            forall|i: int| 0 <= i < indices.len() ==> #[trigger] indices@[i] < records,
        decreases records - index,
    {
        let record: &[u8] = split_record(bytes, index);
        if filter.matches_record(record) && indices.len() < limit {
            indices.push(index as u32);
        }
        index += 1;
    }
    indices
}

// ---------------------------------------------------------------------------
// What a model sees of a record
// ---------------------------------------------------------------------------

/// Why a record cannot be used.
#[derive(Clone, Copy, Debug, PartialEq, Eq, Structural)]
pub enum FeatureFault {
    Letter,
    Shape,
}

/// The visible letters of a record: four for each of five pieces.
pub open spec fn visible_letters(record: Seq<u8>) -> Seq<u8> {
    Seq::new(20, |i: int| record[220 + i / 4 * 5 + 1 + i % 4])
}

/// The visible tetrominos of a record.
pub open spec fn visible_shapes(record: Seq<u8>) -> Seq<u8> {
    Seq::new(5, |i: int| record[220 + i * 5])
}

pub open spec fn shapes_valid(shapes: Seq<u8>) -> bool {
    forall|i: int| 0 <= i < shapes.len() ==> #[trigger] shapes[i] < 7
}

/// What a model sees of a record.
pub struct RecordFeatures {
    pub letters: Vec<u32>,
    pub boundaries: Vec<u32>,
    pub open: Vec<bool>,
    pub queue_counts: [u8; 26],
    pub shapes: [u8; 5],
    pub lines: u8,
    pub lexicon: u8,
}

impl RecordFeatures {
    pub open spec fn describes(&self, record: Seq<u8>, mode: InputMode) -> bool {
        let board = record.take(220);
        &&& self.letters@ == Seq::new(220, |i: int| seen_letter(board[i], mode.hides_board()))
        &&& self.boundaries@ == Seq::new(
            198,
            |i: int| boundary_between(board[i / 9 * 10 + i % 9], board[i / 9 * 10 + i % 9 + 1]),
        )
        &&& self.open@ == Seq::new(220, |i: int| is_open(board, i / 10, i % 10))
        &&& forall|i: int|
            0 <= i < 26 ==> #[trigger] self.queue_counts@[i] == (if mode.hides_future() {
                0
            } else {
                times(visible_letters(record), i + 1, 20)
            })
        &&& self.shapes@ == visible_shapes(record)
        &&& self.lines == record[245]
        &&& self.lexicon == record[246]
    }
}

/// Reads what a model sees of a record.
pub fn record_features(record: &[u8], mode: InputMode) -> (features: Result<
    RecordFeatures,
    FeatureFault,
>)
    requires
        record.len() >= 247,
    ensures
        match features {
            Ok(found) => {
                &&& letters_valid(visible_letters(record@))
                &&& shapes_valid(visible_shapes(record@))
                &&& found.describes(record@, mode)
            },
            Err(FeatureFault::Letter) => !letters_valid(visible_letters(record@)),
            Err(FeatureFault::Shape) => {
                &&& letters_valid(visible_letters(record@))
                &&& !shapes_valid(visible_shapes(record@))
            },
        },
{
    let mut visible: Vec<u8> = Vec::new();
    let mut index: usize = 0;
    while index < 20
        invariant
            index <= 20,
            record.len() >= 247,
            visible.len() == index,
            forall|i: int| 0 <= i < index ==> #[trigger] visible@[i] == visible_letters(record@)[i],
            forall|i: int| 0 <= i < index ==> 1 <= #[trigger] visible@[i] <= 26,
        decreases 20 - index,
    {
        let letter: u8 = record[220 + index / 4 * 5 + 1 + index % 4];
        assert(visible_letters(record@)[index as int] == letter);
        if letter < 1 || letter > 26 {
            return Err(FeatureFault::Letter);
        }
        visible.push(letter);
        index += 1;
    }
    assert(visible@ =~= visible_letters(record@));
    let mut shapes: [u8; 5] = [0u8; 5];
    let mut index: usize = 0;
    while index < 5
        invariant
            index <= 5,
            record.len() >= 247,
            letters_valid(visible_letters(record@)),
            forall|i: int| 0 <= i < index ==> #[trigger] shapes@[i] == visible_shapes(record@)[i],
            forall|i: int| 0 <= i < index ==> #[trigger] visible_shapes(record@)[i] < 7,
        decreases 5 - index,
    {
        let shape: u8 = record[220 + index * 5];
        assert(visible_shapes(record@)[index as int] == shape);
        if shape >= 7 {
            return Err(FeatureFault::Shape);
        }
        shapes[index] = shape;
        index += 1;
    }
    assert(shapes@ =~= visible_shapes(record@));
    let board: &[u8] = slice_subrange(record, 0, 220);
    assert(board@ =~= record@.take(220));
    let queue_counts: [u8; 26] = if mode.masks_future_letters() {
        [0u8; 26]
    } else {
        count_letters(&visible)
    };
    Ok(
        RecordFeatures {
            letters: seen_letters(board, mode.masks_board_letters()),
            boundaries: boundaries(board),
            open: open_cells(board),
            queue_counts,
            shapes,
            lines: record[245],
            lexicon: record[246],
        },
    )
}

/// What came of a record's position.
#[derive(Clone, Copy, Debug)]
pub struct RecordTargets {
    pub score_4: u32,
    pub score_8: u32,
    pub score_16: u32,
    pub words_8: u16,
    pub lines_8: u16,
    pub word_length_8: u16,
}

pub fn record_targets(record: &[u8]) -> (targets: RecordTargets)
    requires
        record.len() == 272,
    ensures
        targets.score_4 == le32(record@, 252),
        targets.score_8 == le32(record@, 256),
        targets.score_16 == le32(record@, 260),
        targets.words_8 == le16(record@, 264),
        targets.lines_8 == le16(record@, 266),
        targets.word_length_8 == le16(record@, 268),
{
    RecordTargets {
        score_4: read_u32(record, 252),
        score_8: read_u32(record, 256),
        score_16: read_u32(record, 260),
        words_8: read_u16(record, 264),
        lines_8: read_u16(record, 266),
        word_length_8: read_u16(record, 268),
    }
}

// ---------------------------------------------------------------------------
// Reading what was packed
// ---------------------------------------------------------------------------

proof fn lemma_tail_reads_back(record: SourceRecord, head: Seq<u8>, lexicon: u8)
    requires
        head.len() == 245,
    ensures
        ({
            let bytes = head + record_tail(record, lexicon);
            &&& bytes.len() == 272
            &&& bytes[245] == record.lines
            &&& bytes[246] == lexicon
            &&& bytes[247] == record.depth
            &&& le32(bytes, 248) == record.seed
            &&& le32(bytes, 252) == record.four.score
            &&& le32(bytes, 256) == record.eight.score
            &&& le32(bytes, 260) == record.sixteen.score
            &&& le16(bytes, 264) == record.eight.words
            &&& le16(bytes, 266) == record.eight.lines
            &&& le16(bytes, 268) == record.eight.word_length
        }),
{
    let bytes = head + record_tail(record, lexicon);
    let a = head + seq![record.lines, lexicon, record.depth];
    let b = le32_bytes(record.seed as int);
    let c = le32_bytes(record.four.score as int);
    let d = le32_bytes(record.eight.score as int);
    let e = le32_bytes(record.sixteen.score as int);
    let f = le16_bytes(record.eight.words as int);
    let g = le16_bytes(record.eight.lines as int);
    let h = le16_bytes(record.eight.word_length as int);
    let z = seq![0u8, 0u8];
    assert(bytes =~= a + b + (c + d + e + f + g + h + z));
    le32_reads_back(a, record.seed as int, c + d + e + f + g + h + z);
    assert(bytes =~= (a + b) + c + (d + e + f + g + h + z));
    le32_reads_back(a + b, record.four.score as int, d + e + f + g + h + z);
    assert(bytes =~= (a + b + c) + d + (e + f + g + h + z));
    le32_reads_back(a + b + c, record.eight.score as int, e + f + g + h + z);
    assert(bytes =~= (a + b + c + d) + e + (f + g + h + z));
    le32_reads_back(a + b + c + d, record.sixteen.score as int, f + g + h + z);
    assert(bytes =~= (a + b + c + d + e) + f + (g + h + z));
    le16_reads_back(a + b + c + d + e, record.eight.words as int, g + h + z);
    assert(bytes =~= (a + b + c + d + e + f) + g + (h + z));
    le16_reads_back(a + b + c + d + e + f, record.eight.lines as int, h + z);
    assert(bytes =~= (a + b + c + d + e + f + g) + h + z);
    le16_reads_back(a + b + c + d + e + f + g, record.eight.word_length as int, z);
}

/// A packed record holds its board and its numbers where they are read.
pub proof fn a_packed_record_reads_back(record: SourceRecord)
    requires
        record_fault(record).is_none(),
    ensures
        ({
            let bytes = record_bytes(record);
            &&& bytes.len() == 272
            &&& record_rows(record) == Ok::<Seq<u8>, SourceFault>(bytes.take(220))
            &&& bytes.subrange(220, 225) == piece_bytes(record.active)
            &&& bytes[245] == record.lines
            &&& lexicon_number(record.lexicon@) == Some(bytes[246])
            &&& bytes[247] == record.depth
            &&& le32(bytes, 248) == record.seed
            &&& le32(bytes, 252) == record.four.score
            &&& le32(bytes, 256) == record.eight.score
            &&& le32(bytes, 260) == record.sixteen.score
            &&& le16(bytes, 264) == record.eight.words
            &&& le16(bytes, 266) == record.eight.lines
            &&& le16(bytes, 268) == record.eight.word_length
        }),
{
    let letters = string_views(record.board.letters@);
    let colors = string_views(record.board.pieces@);
    crate::source::lemma_written_rows_len(letters, colors, false, 22);
    reveal_with_fuel(next_bytes, 5);
    let board = record_rows(record)->Ok_0;
    let head = board + piece_bytes(record.active) + next_bytes(record.next@, 4);
    let lexicon = lexicon_number(record.lexicon@).unwrap();
    assert(head.len() == 245);
    lemma_tail_reads_back(record, head, lexicon);
    let bytes = record_bytes(record);
    assert(bytes =~= head + record_tail(record, lexicon));
    assert(bytes.take(220) =~= board);
    assert(bytes.subrange(220, 225) =~= piece_bytes(record.active));
}

/// A header followed by as many records as it says is a split without fault, and
/// its records read back.
pub proof fn a_written_split_opens(records: Seq<u8>, count: int)
    requires
        0 <= count < 0x1_0000_0000_0000_0000,
        records.len() == 272 * count,
    ensures
        split_fault(split_header(count) + records).is_none(),
        le64(split_header(count) + records, 16) == count,
        forall|i: int|
            0 <= i < count ==> #[trigger] record_at(split_header(count) + records, i)
                == records.subrange(272 * i, 272 * i + 272),
{
    let bytes = split_header(count) + records;
    let zeros = Seq::new(40, |i: int| 0u8);
    let m = DATA_MAGIC@;
    assert(split_header(count).len() == 64);
    assert(bytes.take(8) =~= m);
    assert(bytes =~= m + le32_bytes(1) + (le32_bytes(272) + le64_bytes(count) + zeros + records));
    le32_reads_back(m, 1, le32_bytes(272) + le64_bytes(count) + zeros + records);
    assert(bytes =~= (m + le32_bytes(1)) + le32_bytes(272) + (le64_bytes(count) + zeros + records));
    le32_reads_back(m + le32_bytes(1), 272, le64_bytes(count) + zeros + records);
    assert(bytes =~= (m + le32_bytes(1) + le32_bytes(272)) + le64_bytes(count) + (zeros + records));
    crate::bytes::le64_reads_back(m + le32_bytes(1) + le32_bytes(272), count, zeros + records);
    assert forall|i: int| 0 <= i < count implies #[trigger] record_at(bytes, i)
        == records.subrange(272 * i, 272 * i + 272) by {
        assert(record_at(bytes, i) =~= records.subrange(272 * i, 272 * i + 272));
    }
}

} // verus!
