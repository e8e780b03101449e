//! Tried moves: what they measure up to, and their files.

use vstd::prelude::*;
use vstd::slice::slice_subrange;

use crate::bytes::{
    bits32, has_magic, le16, le16_bytes, le16_reads_back, le32, le32_bytes, le32_reads_back, le64,
    le64_bytes, le64_reads_back, push_bytes, push_i32, push_u16, push_u32, push_u64, read_i32,
    read_u16, read_u32, read_u64, signed32, signed_bits_read_back,
};
use crate::pieces::Piece;
use crate::random::{split_index, split_of};
use crate::rollout::{objective_of, CounterfactualRecord};
use crate::statistics::{int_views, one_if, sum, sum_of};

verus! {

pub const TRIAL_BYTES: usize = 288;

/// The first eight bytes of a file of trials: KVCF1 and three zeros.
pub const TRIAL_MAGIC: [u8; 8] = [0x4b, 0x56, 0x43, 0x46, 0x31, 0, 0, 0];

// ---------------------------------------------------------------------------
// Records as bytes
// ---------------------------------------------------------------------------

/// The bytes of the first `count` pieces.
pub open spec fn pieces_bytes(pieces: Seq<Piece>, count: int) -> Seq<u8>
    decreases count,
{
    if count <= 0 {
        Seq::empty()
    } else {
        pieces_bytes(pieces, count - 1) + seq![pieces[count - 1].kind] + pieces[count
            - 1].letters@
    }
}

pub open spec fn flag(value: bool) -> u8 {
    if value {
        1
    } else {
        0
    }
}

/// A record's numbers from its seed on.
pub open spec fn trial_numbers(record: CounterfactualRecord, heuristic_bits: u32) -> Seq<u8> {
    le32_bytes(record.seed as int) + le16_bytes(record.step as int) + le16_bytes(
        record.candidate_count as int,
    ) + le32_bytes(bits32(record.immediate_score as int)) + seq![
        record.immediate_lines,
        record.immediate_words,
    ] + le16_bytes(record.immediate_word_length as int) + le32_bytes(
        bits32(record.projected_score as int),
    ) + le16_bytes(record.projected_lines as int) + le32_bytes(heuristic_bits as int) + le32_bytes(
        bits32(record.rollout.score as int),
    ) + le16_bytes(record.rollout.lines as int) + le16_bytes(record.rollout.words as int)
        + le16_bytes(record.rollout.word_length as int) + seq![
        record.rollout.placements,
        flag(record.rollout.completed),
        flag(record.rollout.topped_out),
        0u8,
    ]
}

/// The bytes of a tried move; its heuristic value as a binary32 bit pattern.
pub open spec fn trial_bytes(record: CounterfactualRecord, heuristic_bits: u32) -> Seq<u8> {
    record.board@ + pieces_bytes(record.visible@, 5) + seq![
        record.current_lines,
        record.lexicon,
        record.rank,
    ] + trial_numbers(record, heuristic_bits)
}

impl CounterfactualRecord {
    /// Packs the record; its heuristic value is given as a binary32 bit pattern.
    pub fn encode(&self, heuristic_bits: u32) -> (bytes: Vec<u8>)
        ensures
            bytes@ == trial_bytes(*self, heuristic_bits),
            bytes.len() == 288,
    {
        let mut bytes: Vec<u8> = Vec::new();
        push_bytes(&mut bytes, self.board.as_slice());
        assert(bytes@ =~= self.board@);
        let mut index: usize = 0;
        assert(bytes@ =~= self.board@ + pieces_bytes(self.visible@, 0));
        while index < 5
            invariant
                index <= 5,
                bytes@ == self.board@ + pieces_bytes(self.visible@, index as int),
                pieces_bytes(self.visible@, index as int).len() == 5 * index,
            decreases 5 - index,
        {
            bytes.push(self.visible[index].kind);
            push_bytes(&mut bytes, self.visible[index].letters.as_slice());
            index += 1;
            assert(bytes@ =~= self.board@ + pieces_bytes(self.visible@, index as int));
        }
        bytes.push(self.current_lines);
        bytes.push(self.lexicon);
        bytes.push(self.rank);
        push_u32(&mut bytes, self.seed);
        push_u16(&mut bytes, self.step);
        push_u16(&mut bytes, self.candidate_count);
        push_i32(&mut bytes, self.immediate_score);
        bytes.push(self.immediate_lines);
        bytes.push(self.immediate_words);
        push_u16(&mut bytes, self.immediate_word_length);
        push_i32(&mut bytes, self.projected_score);
        push_u16(&mut bytes, self.projected_lines);
        push_u32(&mut bytes, heuristic_bits);
        push_i32(&mut bytes, self.rollout.score);
        push_u16(&mut bytes, self.rollout.lines);
        push_u16(&mut bytes, self.rollout.words);
        push_u16(&mut bytes, self.rollout.word_length);
        bytes.push(self.rollout.placements);
        bytes.push(
            if self.rollout.completed {
                1
            } else {
                0
            },
        );
        bytes.push(
            if self.rollout.topped_out {
                1
            } else {
                0
            },
        );
        bytes.push(0);
        assert(bytes@ =~= trial_bytes(*self, heuristic_bits));
        bytes
    }
}

/// What a packed trial is worth.
pub open spec fn packed_objective(record: Seq<u8>) -> int {
    objective_of(
        signed32(le32(record, 256)),
        signed32(le32(record, 274)),
        record[286] != 0,
    )
}

/// What a packed trial is worth.
pub fn objective(record: &[u8]) -> (objective: i64)
    requires
        record.len() == 288,
    ensures
        objective == packed_objective(record@),
        -0x1_0001_0000 <= objective <= 0x1_0000_0000,
{
    let penalty: i64 = if record[286] != 0 {
        2_500
    } else {
        0
    };
    read_i32(record, 256) as i64 + read_i32(record, 274) as i64 - penalty
}

proof fn lemma_read32(bytes: Seq<u8>, before: Seq<u8>, value: int, after: Seq<u8>, at: int)
    requires
        0 <= value < 0x1_0000_0000,
        bytes == before + le32_bytes(value) + after,
        at == before.len(),
    ensures
        le32(bytes, at) == value,
{
    le32_reads_back(before, value, after);
}

proof fn lemma_read64(bytes: Seq<u8>, before: Seq<u8>, value: int, after: Seq<u8>, at: int)
    requires
        0 <= value < 0x1_0000_0000_0000_0000,
        bytes == before + le64_bytes(value) + after,
        at == before.len(),
    ensures
        le64(bytes, at) == value,
{
    le64_reads_back(before, value, after);
}

proof fn lemma_read16(bytes: Seq<u8>, before: Seq<u8>, value: int, after: Seq<u8>, at: int)
    requires
        0 <= value < 0x1_0000,
        bytes == before + le16_bytes(value) + after,
        at == before.len(),
    ensures
        le16(bytes, at) == value,
{
    le16_reads_back(before, value, after);
}

/// The ways in which nine parts can be grouped around one of them.
proof fn lemma_nine_parts(
    h: Seq<u8>,
    a: Seq<u8>,
    b: Seq<u8>,
    c: Seq<u8>,
    d: Seq<u8>,
    e: Seq<u8>,
    f: Seq<u8>,
    g: Seq<u8>,
    z: Seq<u8>,
)
    ensures
        ({
            let all = h + a + b + c + d + e + f + g + z;
            &&& all == h + a + (b + c + d + e + f + g + z)
            &&& all == (h + a) + b + (c + d + e + f + g + z)
            &&& all == (h + a + b) + c + (d + e + f + g + z)
            &&& all == (h + a + b + c) + d + (e + f + g + z)
            &&& all == (h + a + b + c + d + e) + f + (g + z)
            &&& all == (h + a + b + c + d + e + f) + g + z
        }),
{
    let all = h + a + b + c + d + e + f + g + z;
    assert(all =~= h + a + (b + c + d + e + f + g + z));
    assert(all =~= (h + a) + b + (c + d + e + f + g + z));
    assert(all =~= (h + a + b) + c + (d + e + f + g + z));
    assert(all =~= (h + a + b + c) + d + (e + f + g + z));
    assert(all =~= (h + a + b + c + d + e) + f + (g + z));
    assert(all =~= (h + a + b + c + d + e + f) + g + z);
}

/// The numbers of a packed trial, as they are read.
#[verifier::opaque]
spec fn has_numbers(bytes: Seq<u8>, record: CounterfactualRecord, heuristic_bits: u32) -> bool {
    &&& le32(bytes, 248) == record.seed
    &&& le16(bytes, 252) == record.step
    &&& le16(bytes, 254) == record.candidate_count
    &&& le32(bytes, 256) == bits32(record.immediate_score as int)
    &&& le32(bytes, 270) == heuristic_bits
    &&& le32(bytes, 274) == bits32(record.rollout.score as int)
}

proof fn lemma_numbers_read_back(
    h: Seq<u8>,
    e: Seq<u8>,
    z: Seq<u8>,
    record: CounterfactualRecord,
    heuristic_bits: u32,
)
    requires
        h.len() == 248,
        e.len() == 10,
    ensures
        has_numbers(
            h + le32_bytes(record.seed as int) + le16_bytes(record.step as int) + le16_bytes(
                record.candidate_count as int,
            ) + le32_bytes(bits32(record.immediate_score as int)) + e + le32_bytes(
                heuristic_bits as int,
            ) + le32_bytes(bits32(record.rollout.score as int)) + z,
            record,
            heuristic_bits,
        ),
{
    let a = le32_bytes(record.seed as int);
    let b = le16_bytes(record.step as int);
    let c = le16_bytes(record.candidate_count as int);
    let score = bits32(record.immediate_score as int);
    let d = le32_bytes(score);
    let f = le32_bytes(heuristic_bits as int);
    let played = bits32(record.rollout.score as int);
    let g = le32_bytes(played);
    let all = h + a + b + c + d + e + f + g + z;
    lemma_nine_parts(h, a, b, c, d, e, f, g, z);
    signed_bits_read_back(record.immediate_score as int);
    signed_bits_read_back(record.rollout.score as int);
    lemma_read32(all, h, record.seed as int, b + c + d + e + f + g + z, 248);
    lemma_read16(all, h + a, record.step as int, c + d + e + f + g + z, 252);
    lemma_read16(all, h + a + b, record.candidate_count as int, d + e + f + g + z, 254);
    lemma_read32(all, h + a + b + c, score, e + f + g + z, 256);
    lemma_read32(all, h + a + b + c + d + e, heuristic_bits as int, g + z, 270);
    lemma_read32(all, h + a + b + c + d + e + f, played, z, 274);
    reveal(has_numbers);
}

/// The length of a packed trial, and its single bytes.
proof fn lemma_single_bytes(record: CounterfactualRecord, heuristic_bits: u32)
    ensures
        trial_bytes(record, heuristic_bits).len() == 288,
        trial_bytes(record, heuristic_bits)[246] == record.lexicon,
        trial_bytes(record, heuristic_bits)[247] == record.rank,
        trial_bytes(record, heuristic_bits)[286] == flag(record.rollout.topped_out),
{
    reveal_with_fuel(pieces_bytes, 6);
}

proof fn lemma_packed_numbers(record: CounterfactualRecord, heuristic_bits: u32)
    ensures
        has_numbers(trial_bytes(record, heuristic_bits), record, heuristic_bits),
{
    reveal_with_fuel(pieces_bytes, 6);
    let h = record.board@ + pieces_bytes(record.visible@, 5) + seq![
        record.current_lines,
        record.lexicon,
        record.rank,
    ];
    let e = seq![record.immediate_lines, record.immediate_words] + le16_bytes(
        record.immediate_word_length as int,
    ) + le32_bytes(bits32(record.projected_score as int)) + le16_bytes(
        record.projected_lines as int,
    );
    let z = le16_bytes(record.rollout.lines as int) + le16_bytes(record.rollout.words as int)
        + le16_bytes(record.rollout.word_length as int) + seq![
        record.rollout.placements,
        flag(record.rollout.completed),
        flag(record.rollout.topped_out),
        0u8,
    ];
    lemma_numbers_read_back(h, e, z, record, heuristic_bits);
    assert(trial_bytes(record, heuristic_bits) =~= h + le32_bytes(record.seed as int) + le16_bytes(
        record.step as int,
    ) + le16_bytes(record.candidate_count as int) + le32_bytes(
        bits32(record.immediate_score as int),
    ) + e + le32_bytes(heuristic_bits as int) + le32_bytes(bits32(record.rollout.score as int))
        + z);
}

/// A packed trial is worth what the trial was.
pub proof fn a_packed_trial_keeps_its_worth(record: CounterfactualRecord, heuristic_bits: u32)
    ensures
        trial_bytes(record, heuristic_bits).len() == 288,
        packed_objective(trial_bytes(record, heuristic_bits)) == record.worth(),
        le32(trial_bytes(record, heuristic_bits), 248) == record.seed,
        le16(trial_bytes(record, heuristic_bits), 252) == record.step,
        le16(trial_bytes(record, heuristic_bits), 254) == record.candidate_count,
        le32(trial_bytes(record, heuristic_bits), 270) == heuristic_bits,
        trial_bytes(record, heuristic_bits)[246] == record.lexicon,
        trial_bytes(record, heuristic_bits)[247] == record.rank,
{
    lemma_single_bytes(record, heuristic_bits);
    lemma_packed_numbers(record, heuristic_bits);
    lemma_worth_read_back(trial_bytes(record, heuristic_bits), record, heuristic_bits);
}

proof fn lemma_worth_read_back(
    bytes: Seq<u8>,
    record: CounterfactualRecord,
    heuristic_bits: u32,
)
    requires
        has_numbers(bytes, record, heuristic_bits),
        bytes[286] == flag(record.rollout.topped_out),
    ensures
        packed_objective(bytes) == record.worth(),
        le32(bytes, 248) == record.seed,
        le16(bytes, 252) == record.step,
        le16(bytes, 254) == record.candidate_count,
        le32(bytes, 270) == heuristic_bits,
{
    reveal(has_numbers);
    signed_bits_read_back(record.immediate_score as int);
    signed_bits_read_back(record.rollout.score as int);
}

/// The header of a file of trials.
pub open spec fn trial_header(groups: int, records: int) -> Seq<u8> {
    TRIAL_MAGIC@ + le32_bytes(1) + le32_bytes(288) + le64_bytes(groups) + le64_bytes(records)
        + Seq::new(32, |i: int| 0u8)
}

/// The header of a file of trials.
pub fn write_header(groups: u64, records: u64) -> (bytes: Vec<u8>)
    ensures
        bytes@ == trial_header(groups as int, records as int),
        bytes.len() == 64,
{
    let mut bytes: Vec<u8> = Vec::new();
    push_bytes(&mut bytes, TRIAL_MAGIC.as_slice());
    push_u32(&mut bytes, 1);
    push_u32(&mut bytes, 288);
    push_u64(&mut bytes, groups);
    push_u64(&mut bytes, records);
    let padding: [u8; 32] = [0u8; 32];
    push_bytes(&mut bytes, padding.as_slice());
    assert(padding@ =~= Seq::new(32, |i: int| 0u8));
    assert(bytes@ =~= trial_header(groups as int, records as int));
    bytes
}

// ---------------------------------------------------------------------------
// What a group measures up to
// ---------------------------------------------------------------------------

/// How many candidates are looked at for each point of a curve.
pub const CURVE_LIMITS: [usize; 6] = [1, 2, 4, 6, 8, 12];

/// The worths of tried moves.
pub open spec fn worths(records: Seq<CounterfactualRecord>) -> Seq<int> {
    Seq::new(records.len(), |i: int| records[i].worth())
}

/// The place of the first greatest number among the first `count`.
pub open spec fn first_greatest(values: Seq<int>, count: int) -> int
    decreases count,
{
    if count <= 1 {
        0
    } else {
        let best = first_greatest(values, count - 1);
        if values[count - 1] > values[best] {
            count - 1
        } else {
            best
        }
    }
}

/// The greatest of the first `limit` numbers, as far as there are so many.
pub open spec fn greatest_within(values: Seq<int>, limit: int) -> int {
    values[first_greatest(values, vstd::math::min(limit, values.len() as int))]
}

pub proof fn first_greatest_is_greatest(values: Seq<int>, count: int)
    requires
        1 <= count,
    ensures
        0 <= first_greatest(values, count) < count,
        forall|i: int|
            0 <= i < count ==> #[trigger] values[i] <= values[first_greatest(values, count)],
        forall|i: int|
            0 <= i < first_greatest(values, count) ==> #[trigger] values[i]
                < values[first_greatest(values, count)],
    decreases count,
{
    if count > 1 {
        first_greatest_is_greatest(values, count - 1);
    }
}

/// Looking at more candidates never lowers the best of them.
pub proof fn curves_never_fall(values: Seq<int>, fewer: int, more: int)
    requires
        values.len() >= 1,
        1 <= fewer <= more,
    ensures
        greatest_within(values, fewer) <= greatest_within(values, more),
{
    let few = vstd::math::min(fewer, values.len() as int);
    let many = vstd::math::min(more, values.len() as int);
    first_greatest_is_greatest(values, few);
    first_greatest_is_greatest(values, many);
    assert(values[first_greatest(values, few)] <= values[first_greatest(values, many)]);
}

/// What a group of tried moves measures up to.
#[derive(Clone, Copy, Debug)]
pub struct GroupMeasure {
    pub lexicon: u8,
    pub candidates: usize,
    pub baseline_objective: i32,
    pub oracle_objective: i32,
    pub oracle_delta: i32,
    pub oracle_rank: usize,
    pub baseline_topped_out: bool,
    pub oracle_topped_out: bool,
    pub curves: [i32; 6],
}

impl GroupMeasure {
    pub open spec fn measures(&self, records: Seq<CounterfactualRecord>) -> bool {
        let values = worths(records);
        let best = first_greatest(values, records.len() as int);
        &&& self.lexicon == records[0].lexicon
        &&& self.candidates == records.len()
        &&& self.baseline_objective == values[0]
        &&& self.oracle_objective == values[best]
        &&& self.oracle_delta == values[best] - values[0]
        &&& self.oracle_rank == best
        &&& self.baseline_topped_out == records[0].rollout.topped_out
        &&& self.oracle_topped_out == records[best].rollout.topped_out
        &&& forall|k: int|
            0 <= k < 6 ==> #[trigger] self.curves@[k] == greatest_within(
                values,
                CURVE_LIMITS@[k] as int,
            )
    }

    pub open spec fn wf(&self) -> bool {
        &&& -2_500 <= self.baseline_objective <= 20_000_000
        &&& -2_500 <= self.oracle_objective <= 20_000_000
        &&& 0 <= self.oracle_delta <= 20_002_500
        &&& forall|k: int| 0 <= k < 6 ==> -2_500 <= #[trigger] self.curves@[k] <= 20_000_000
    }
}

fn best_record(records: &Vec<CounterfactualRecord>, count: usize) -> (best: usize)
    requires
        1 <= count <= records.len(),
        forall|i: int| 0 <= i < records.len() ==> (#[trigger] records@[i]).fits(),
    ensures
        best == first_greatest(worths(records@), count as int),
        best < count,
{
    let mut best: usize = 0;
    let mut index: usize = 1;
    while index < count
        invariant
            1 <= index <= count <= records.len(),
            forall|i: int| 0 <= i < records.len() ==> (#[trigger] records@[i]).fits(),
            best < index,
            best == first_greatest(worths(records@), index as int),
        decreases count - index,
    {
        assert(records@[index as int].fits() && records@[best as int].fits());
        assert(worths(records@)[index as int] == records@[index as int].worth());
        assert(worths(records@)[best as int] == records@[best as int].worth());
        if records[index].objective() > records[best].objective() {
            best = index;
        }
        index += 1;
    }
    best
}

/// Measures a group of tried moves; the usual move is the first.
pub fn measure(records: &Vec<CounterfactualRecord>) -> (found: GroupMeasure)
    requires
        records.len() >= 1,
        forall|i: int| 0 <= i < records.len() ==> (#[trigger] records@[i]).fits(),
        greatest_within(worths(records@), records.len() as int) - records@[0].worth() <= i32::MAX,
    ensures
        found.measures(records@),
        (forall|i: int| 0 <= i < records.len() ==> (#[trigger] records@[i]).wf()) ==> found.wf(),
{
    let best: usize = best_record(records, records.len());
    let mut curves: [i32; 6] = [0i32; 6];
    let mut point: usize = 0;
    while point < 6
        invariant
            point <= 6,
            records.len() >= 1,
            forall|i: int| 0 <= i < records.len() ==> (#[trigger] records@[i]).fits(),
            forall|k: int|
                0 <= k < point ==> #[trigger] curves@[k] == greatest_within(
                    worths(records@),
                    CURVE_LIMITS@[k] as int,
                ),
            (forall|i: int| 0 <= i < records.len() ==> (#[trigger] records@[i]).wf()) ==> forall|
                k: int,
            |
                0 <= k < point ==> -2_500 <= #[trigger] curves@[k] <= 20_000_000,
        decreases 6 - point,
    {
        let limit: usize = CURVE_LIMITS[point];
        assert(limit >= 1) by {
            if point == 0 {
            } else if point == 1 {
            } else if point == 2 {
            } else if point == 3 {
            } else if point == 4 {
            } else {
            }
        }
        let count: usize = if limit < records.len() {
            limit
        } else {
            records.len()
        };
        let leader: usize = best_record(records, count);
        assert(records@[leader as int].fits());
        assert(worths(records@)[leader as int] == records@[leader as int].worth());
        curves[point] = records[leader].objective();
        point += 1;
    }
    assert(records@[0].fits() && records@[best as int].fits());
    assert(worths(records@)[0] == records@[0].worth());
    assert(worths(records@)[best as int] == records@[best as int].worth());
    proof {
        first_greatest_is_greatest(worths(records@), records.len() as int);
    }
    let baseline: i32 = records[0].objective();
    let oracle: i32 = records[best].objective();
    GroupMeasure {
        lexicon: records[0].lexicon,
        candidates: records.len(),
        baseline_objective: baseline,
        oracle_objective: oracle,
        oracle_delta: oracle - baseline,
        oracle_rank: best,
        baseline_topped_out: records[0].rollout.topped_out,
        oracle_topped_out: records[best].rollout.topped_out,
        curves,
    }
}

/// Choosing with hindsight is never worse than the usual move.
pub proof fn hindsight_never_loses(records: Seq<CounterfactualRecord>, found: GroupMeasure)
    requires
        records.len() >= 1,
        found.measures(records),
    ensures
        found.oracle_delta >= 0,
        found.oracle_rank == 0 <==> found.oracle_delta == 0,
{
    first_greatest_is_greatest(worths(records), records.len() as int);
}

// ---------------------------------------------------------------------------
// Reports
// ---------------------------------------------------------------------------

/// One quantity of a measured group.
#[derive(Clone, Copy, Debug, PartialEq, Eq, Structural)]
pub enum Quantity {
    Candidates,
    Baseline,
    Oracle,
    Delta,
    Headroom,
    ChangedAction,
    BaselineTopOut,
    OracleTopOut,
    Uplift(usize),
}

impl GroupMeasure {
    pub open spec fn quantity(&self, quantity: Quantity) -> int {
        match quantity {
            Quantity::Candidates => self.candidates as int,
            Quantity::Baseline => self.baseline_objective as int,
            Quantity::Oracle => self.oracle_objective as int,
            Quantity::Delta => self.oracle_delta as int,
            Quantity::Headroom => one_if(self.oracle_delta > 0),
            Quantity::ChangedAction => one_if(self.oracle_rank > 0),
            Quantity::BaselineTopOut => one_if(self.baseline_topped_out),
            Quantity::OracleTopOut => one_if(self.oracle_topped_out),
            Quantity::Uplift(point) => self.curves@[point as int] - self.baseline_objective,
        }
    }

    /// One quantity of the group.
    pub fn quantity_of(&self, quantity: Quantity) -> (value: i64)
        requires
            self.wf(),
            self.candidates <= 255,
            quantity matches Quantity::Uplift(point) ==> point < 6,
        ensures
            value == self.quantity(quantity),
            -0x1_0000_0000 <= value <= 0x1_0000_0000,
    {
        match quantity {
            Quantity::Candidates => self.candidates as i64,
            Quantity::Baseline => self.baseline_objective as i64,
            Quantity::Oracle => self.oracle_objective as i64,
            Quantity::Delta => self.oracle_delta as i64,
            Quantity::Headroom => if self.oracle_delta > 0 {
                1
            } else {
                0
            },
            Quantity::ChangedAction => if self.oracle_rank > 0 {
                1
            } else {
                0
            },
            Quantity::BaselineTopOut => if self.baseline_topped_out {
                1
            } else {
                0
            },
            Quantity::OracleTopOut => if self.oracle_topped_out {
                1
            } else {
                0
            },
            Quantity::Uplift(point) => {
                assert(-2_500 <= self.curves@[point as int] <= 20_000_000);
                self.curves[point] as i64 - self.baseline_objective as i64
            },
        }
    }
}

/// One quantity of every group, in order.
pub open spec fn quantities(measures: Seq<GroupMeasure>, quantity: Quantity) -> Seq<int> {
    Seq::new(measures.len(), |i: int| measures[i].quantity(quantity))
}

pub open spec fn measures_wf(measures: Seq<GroupMeasure>) -> bool {
    &&& measures.len() <= 0x7fff_ffff
    &&& forall|i: int|
        0 <= i < measures.len() ==> (#[trigger] measures[i]).wf() && measures[i].candidates <= 255
}

/// One quantity of every group, in order.
pub fn list_quantity(measures: &Vec<GroupMeasure>, quantity: Quantity) -> (values: Vec<i64>)
    requires
        measures_wf(measures@),
        quantity matches Quantity::Uplift(point) ==> point < 6,
    ensures
        int_views(values@) == quantities(measures@, quantity),
        forall|i: int|
            0 <= i < values.len() ==> -0x1_0000_0000 <= #[trigger] values@[i] <= 0x1_0000_0000,
{
    let mut values: Vec<i64> = Vec::new();
    let mut index: usize = 0;
    while index < measures.len()
        invariant
            index <= measures.len(),
            measures_wf(measures@),
            quantity matches Quantity::Uplift(point) ==> point < 6,
            values.len() == index,
            forall|i: int|
                0 <= i < values.len() ==> #[trigger] values@[i] == measures@[i].quantity(quantity),
            forall|i: int|
                0 <= i < values.len() ==> -0x1_0000_0000 <= #[trigger] values@[i] <= 0x1_0000_0000,
        decreases measures.len() - index,
    {
        assert(measures@[index as int].wf() && measures@[index as int].candidates <= 255);
        values.push(measures[index].quantity_of(quantity));
        index += 1;
    }
    assert(int_views(values@) =~= quantities(measures@, quantity));
    values
}

/// One quantity of all groups together.
pub fn total_quantity(measures: &Vec<GroupMeasure>, quantity: Quantity) -> (total: i64)
    requires
        measures_wf(measures@),
        quantity matches Quantity::Uplift(point) ==> point < 6,
    ensures
        total == sum_of(quantities(measures@, quantity), measures.len() as int),
{
    let values: Vec<i64> = list_quantity(measures, quantity);
    assert(int_views(values@).len() == values.len());
    sum(&values)
}

/// The groups of one lexicon, in order: of the first for `true`, of the second
/// for `false`.
pub open spec fn groups_of(measures: Seq<GroupMeasure>, first: bool, count: int) -> Seq<
    GroupMeasure,
>
    decreases count,
{
    if count <= 0 {
        Seq::empty()
    } else if (measures[count - 1].lexicon == 0) == first {
        groups_of(measures, first, count - 1).push(measures[count - 1])
    } else {
        groups_of(measures, first, count - 1)
    }
}

/// The groups of one lexicon, in order.
pub fn of_lexicon(measures: &Vec<GroupMeasure>, first: bool) -> (found: Vec<GroupMeasure>)
    requires
        measures_wf(measures@),
    ensures
        found@ == groups_of(measures@, first, measures.len() as int),
        measures_wf(found@),
{
    let mut found: Vec<GroupMeasure> = Vec::new();
    let mut index: usize = 0;
    while index < measures.len()
        invariant
            index <= measures.len(),
            measures_wf(measures@),
            found.len() <= index,
            found@ == groups_of(measures@, first, index as int),
            measures_wf(found@),
        decreases measures.len() - index,
    {
        assert(measures@[index as int].wf() && measures@[index as int].candidates <= 255);
        if (measures[index].lexicon == 0) == first {
            found.push(measures[index]);
        }
        index += 1;
    }
    found
}

// ---------------------------------------------------------------------------
// Files of trials
// ---------------------------------------------------------------------------

/// What is wrong with a file of trials.
#[derive(Clone, Copy, Debug, PartialEq, Eq, Structural)]
pub enum TrialDataFault {
    Magic,
    Version,
    Length,
    Group,
    Sibling,
    GroupCount,
}

/// The moves that were tried in one position.
#[derive(Clone, Copy, Debug, PartialEq, Eq, Structural)]
pub struct Group {
    pub start: usize,
    pub len: usize,
    pub seed: u32,
    pub lexicon: u8,
}

/// The bytes of trial number `index`.
pub open spec fn trial_at(bytes: Seq<u8>, index: int) -> Seq<u8> {
    bytes.subrange(64 + 288 * index, 64 + 288 * index + 288)
}

/// The bytes of trial number `index`.
pub fn trial_record(bytes: &[u8], index: usize) -> (record: &[u8])
    requires
        64 + 288 * index + 288 <= bytes.len(),
    ensures
        record@ == trial_at(bytes@, index as int),
        record.len() == 288,
{
    slice_subrange(bytes, 64 + 288 * index, 64 + 288 * index + 288)
}

/// Whether a trial belongs, at its rank, to the group that begins with another.
pub open spec fn is_sibling(first: Seq<u8>, record: Seq<u8>, rank: int) -> bool {
    &&& record[247] == rank
    &&& le16(record, 254) == le16(first, 254)
    &&& le32(record, 248) == le32(first, 248)
    &&& le16(record, 252) == le16(first, 252)
    &&& record[246] == first[246]
}

/// The groups from trial number `index` on, or what is wrong with them.
pub open spec fn groups_from(bytes: Seq<u8>, records: int, index: int, groups: Seq<Group>) -> Result<
    Seq<Group>,
    TrialDataFault,
>
    decreases records - index,
{
    if index >= records {
        Ok(groups)
    } else {
        let first = trial_at(bytes, index);
        let len = le16(first, 254);
        if len <= 0 || index + len > records || first[247] != 0 {
            Err(TrialDataFault::Group)
        } else if !(forall|rank: int|
            0 <= rank < len ==> is_sibling(first, #[trigger] trial_at(bytes, index + rank), rank)) {
            Err(TrialDataFault::Sibling)
        } else {
            groups_from(
                bytes,
                records,
                index + len,
                groups.push(
                    Group {
                        start: index as usize,
                        len: len as usize,
                        seed: le32(first, 248) as u32,
                        lexicon: first[246],
                    },
                ),
            )
        }
    }
}

/// The groups of a file of trials, or what is wrong with it.
pub open spec fn file_groups(bytes: Seq<u8>) -> Result<Seq<Group>, TrialDataFault> {
    if bytes.len() < 64 || bytes.take(8) != TRIAL_MAGIC@ {
        Err(TrialDataFault::Magic)
    } else if le32(bytes, 8) != 1 || le32(bytes, 12) != 288 {
        Err(TrialDataFault::Version)
    } else if bytes.len() != 64 + 288 * le64(bytes, 24) {
        Err(TrialDataFault::Length)
    } else {
        match groups_from(bytes, le64(bytes, 24), 0, Seq::empty()) {
            Err(fault) => Err(fault),
            Ok(groups) => if groups.len() != le64(bytes, 16) {
                Err(TrialDataFault::GroupCount)
            } else {
                Ok(groups)
            },
        }
    }
}

fn check_sibling(first: &[u8], record: &[u8], rank: usize) -> (same: bool)
    requires
        first.len() == 288,
        record.len() == 288,
    ensures
        same == is_sibling(first@, record@, rank as int),
{
    record[247] as usize == rank && read_u16(record, 254) == read_u16(first, 254) && read_u32(
        record,
        248,
    ) == read_u32(first, 248) && read_u16(record, 252) == read_u16(first, 252) && record[246]
        == first[246]
}

fn check_siblings(bytes: &[u8], start: usize, len: usize) -> (same: bool)
    requires
        64 + 288 * (start + len) <= bytes.len(),
        len >= 1,
    ensures
        same == (forall|rank: int|
            0 <= rank < len ==> is_sibling(
                trial_at(bytes@, start as int),
                #[trigger] trial_at(bytes@, start + rank),
                rank,
            )),
{
    let first: &[u8] = trial_record(bytes, start);
    let mut rank: usize = 0;
    while rank < len
        invariant
            rank <= len,
            64 + 288 * (start + len) <= bytes.len(),
            first@ == trial_at(bytes@, start as int),
            first.len() == 288,
            forall|r: int|
                0 <= r < rank ==> is_sibling(first@, #[trigger] trial_at(bytes@, start + r), r),
        decreases len - rank,
    {
        let record: &[u8] = trial_record(bytes, start + rank);
        if !check_sibling(first, record, rank) {
            assert(!is_sibling(first@, trial_at(bytes@, start + rank), rank as int));
            return false;
        }
        rank += 1;
    }
    true
}

/// Every group lies within the file.
pub open spec fn groups_wf(groups: Seq<Group>, records: int) -> bool {
    forall|i: int|
        0 <= i < groups.len() ==> 1 <= (#[trigger] groups[i]).len <= 0xffff && groups[i].start
            + groups[i].len <= records
}

/// Checks a file of trials and finds its groups.
pub fn open_trials(bytes: &[u8]) -> (groups: Result<Vec<Group>, TrialDataFault>)
    ensures
        match groups {
            Ok(found) => {
                &&& file_groups(bytes@) == Ok::<Seq<Group>, TrialDataFault>(found@)
                &&& bytes.len() == 64 + 288 * le64(bytes@, 24)
                &&& groups_wf(found@, le64(bytes@, 24))
            },
            Err(fault) => file_groups(bytes@) == Err::<Seq<Group>, TrialDataFault>(fault),
        },
{
    if bytes.len() < 64 || !has_magic(bytes, &TRIAL_MAGIC) {
        return Err(TrialDataFault::Magic);
    }
    let version: u32 = read_u32(bytes, 8);
    let width: u32 = read_u32(bytes, 12);
    let expected: u64 = read_u64(bytes, 16);
    let count: u64 = read_u64(bytes, 24);
    if version != 1 || width != 288 {
        return Err(TrialDataFault::Version);
    }
    if bytes.len() as u128 != 64 + 288 * count as u128 {
        return Err(TrialDataFault::Length);
    }
    let records: usize = count as usize;
    let ghost goal = groups_from(bytes@, records as int, 0, Seq::empty());
    let mut groups: Vec<Group> = Vec::new();
    let mut index: usize = 0;
    while index < records
        invariant
            index <= records,
            bytes.len() >= 64,
            bytes@.take(8) == TRIAL_MAGIC@,
            le32(bytes@, 8) == 1,
            le32(bytes@, 12) == 288,
            records == le64(bytes@, 24),
            bytes.len() == 64 + 288 * records,
            goal == groups_from(bytes@, records as int, 0, Seq::empty()),
            goal == groups_from(bytes@, records as int, index as int, groups@),
            groups_wf(groups@, records as int),
        decreases records - index,
    {
        let first: &[u8] = trial_record(bytes, index);
        let len: usize = read_u16(first, 254) as usize;
        if len == 0 || len > records - index || first[247] != 0 {
            return Err(TrialDataFault::Group);
        }
        if !check_siblings(bytes, index, len) {
            return Err(TrialDataFault::Sibling);
        }
        groups.push(
            Group { start: index, len, seed: read_u32(first, 248), lexicon: first[246] },
        );
        index += len;
    }
    if groups.len() as u64 != expected {
        return Err(TrialDataFault::GroupCount);
    }
    Ok(groups)
}

/// The numbers of the groups of a split among the first `count`.
pub open spec fn split_groups(groups: Seq<Group>, split: int, count: int) -> Seq<int>
    decreases count,
{
    if count <= 0 {
        Seq::empty()
    } else if split_of(groups[count - 1].seed) == split {
        split_groups(groups, split, count - 1).push(count - 1)
    } else {
        split_groups(groups, split, count - 1)
    }
}

/// The numbers of the groups that belong to a split.
pub fn groups_in_split(groups: &Vec<Group>, split: usize) -> (indices: Vec<u32>)
    requires
        groups.len() <= u32::MAX,
    ensures
        indices.len() == split_groups(groups@, split as int, groups.len() as int).len(),
        forall|i: int|
            0 <= i < indices.len() ==> #[trigger] indices@[i] == split_groups(
                groups@,
                split as int,
                groups.len() as int,
            )[i],
        forall|i: int| 0 <= i < indices.len() ==> #[trigger] indices@[i] < groups.len(),
{
    let mut indices: Vec<u32> = Vec::new();
    let mut index: usize = 0;
    while index < groups.len()
        invariant
            index <= groups.len() <= u32::MAX,
            indices.len() == split_groups(groups@, split as int, index as int).len(),
            forall|i: int|
                0 <= i < indices.len() ==> #[trigger] indices@[i] == split_groups(
                    groups@,
                    split as int,
                    index as int,
                )[i],
            forall|i: int| 0 <= i < indices.len() ==> #[trigger] indices@[i] < groups.len(),
        decreases groups.len() - index,
    {
        if split_index(groups[index].seed) == split {
            indices.push(index as u32);
        }
        index += 1;
    }
    indices
}

// ---------------------------------------------------------------------------
// Reading what was written
// ---------------------------------------------------------------------------

/// A tried move with the bit pattern of its heuristic value.
pub ghost struct PackedTrial {
    pub record: CounterfactualRecord,
    pub heuristic_bits: u32,
}

/// Trials one after the other.
pub open spec fn trials_bytes(trials: Seq<PackedTrial>) -> Seq<u8>
    decreases trials.len(),
{
    if trials.len() == 0 {
        Seq::empty()
    } else {
        trials_bytes(trials.drop_last()) + trial_bytes(
            trials.last().record,
            trials.last().heuristic_bits,
        )
    }
}

/// Whether trials are those of one position, in the order of their ranks.
pub open spec fn is_written_group(trials: Seq<PackedTrial>) -> bool {
    &&& trials.len() >= 1
    &&& forall|i: int|
        0 <= i < trials.len() ==> {
            let record = (#[trigger] trials[i]).record;
            &&& record.rank == i
            &&& record.candidate_count == trials.len()
            &&& record.seed == trials[0].record.seed
            &&& record.step == trials[0].record.step
            &&& record.lexicon == trials[0].record.lexicon
        }
}

/// The trials of groups, one group after the other.
pub open spec fn all_trials(groups: Seq<Seq<PackedTrial>>) -> Seq<PackedTrial>
    decreases groups.len(),
{
    if groups.len() == 0 {
        Seq::empty()
    } else {
        all_trials(groups.drop_last()) + groups.last()
    }
}

/// The groups that a file of these trials has.
pub open spec fn written_groups(groups: Seq<Seq<PackedTrial>>) -> Seq<Group>
    decreases groups.len(),
{
    if groups.len() == 0 {
        Seq::empty()
    } else {
        let before = groups.drop_last();
        written_groups(before).push(
            Group {
                start: all_trials(before).len() as usize,
                len: groups.last().len() as usize,
                seed: groups.last()[0].record.seed,
                lexicon: groups.last()[0].record.lexicon,
            },
        )
    }
}

proof fn lemma_last_trial(
    head: Seq<u8>,
    body: Seq<u8>,
    last: Seq<u8>,
    tail: Seq<u8>,
    count: int,
)
    requires
        head.len() == 64,
        0 <= count,
        body.len() == 288 * count,
        last.len() == 288,
    ensures
        head + (body + last) + tail == head + body + (last + tail),
        trial_at(head + (body + last) + tail, count) == last,
{
    assert(head + (body + last) + tail =~= head + body + (last + tail));
    assert(trial_at(head + (body + last) + tail, count) =~= last);
}

proof fn lemma_trials_bytes(head: Seq<u8>, trials: Seq<PackedTrial>, tail: Seq<u8>, index: int)
    requires
        head.len() == 64,
        0 <= index < trials.len(),
    ensures
        trial_at(head + trials_bytes(trials) + tail, index) == trial_bytes(
            trials[index].record,
            trials[index].heuristic_bits,
        ),
    decreases trials.len(),
{
    let shorter = trials.drop_last();
    let last = trial_bytes(trials.last().record, trials.last().heuristic_bits);
    lemma_trials_len(shorter);
    lemma_trial_len(trials.last());
    lemma_last_trial(head, trials_bytes(shorter), last, tail, shorter.len() as int);
    if index < shorter.len() {
        lemma_trials_bytes(head, shorter, last + tail, index);
    }
}

proof fn lemma_trial_len(trial: PackedTrial)
    ensures
        trial_bytes(trial.record, trial.heuristic_bits).len() == 288,
{
    a_packed_trial_keeps_its_worth(trial.record, trial.heuristic_bits);
}

proof fn lemma_trials_len(trials: Seq<PackedTrial>)
    ensures
        trials_bytes(trials).len() == 288 * trials.len(),
    decreases trials.len(),
{
    if trials.len() > 0 {
        lemma_trials_len(trials.drop_last());
        lemma_trial_len(trials.last());
    }
}

proof fn lemma_all_trials_take(groups: Seq<Seq<PackedTrial>>, count: int, index: int)
    requires
        0 <= count < groups.len(),
        0 <= index < groups[count].len(),
    ensures
        all_trials(groups.take(count)).len() + groups[count].len() <= all_trials(groups).len(),
        all_trials(groups)[all_trials(groups.take(count)).len() + index] == groups[count][index],
    decreases groups.len(),
{
    let before = groups.drop_last();
    if count < before.len() {
        lemma_all_trials_take(before, count, index);
        assert(before.take(count) =~= groups.take(count));
    } else {
        assert(groups.take(count) =~= before);
    }
}

proof fn lemma_groups_from(bytes: Seq<u8>, groups: Seq<Seq<PackedTrial>>, count: int)
    requires
        0 <= count <= groups.len(),
        forall|g: int| 0 <= g < groups.len() ==> is_written_group(#[trigger] groups[g]),
        forall|i: int|
            0 <= i < all_trials(groups).len() ==> #[trigger] trial_at(bytes, i) == trial_bytes(
                all_trials(groups)[i].record,
                all_trials(groups)[i].heuristic_bits,
            ),
    ensures
        groups_from(
            bytes,
            all_trials(groups).len() as int,
            all_trials(groups.take(count)).len() as int,
            written_groups(groups.take(count)),
        ) == Ok::<Seq<Group>, TrialDataFault>(written_groups(groups)),
    decreases groups.len() - count,
{
    let records = all_trials(groups).len() as int;
    let index = all_trials(groups.take(count)).len() as int;
    if count == groups.len() {
        assert(groups.take(count) =~= groups);
    } else {
        let group = groups[count];
        assert(is_written_group(groups[count]));
        lemma_all_trials_take(groups, count, 0);
        let first = trial_at(bytes, index);
        a_packed_trial_keeps_its_worth(group[0].record, group[0].heuristic_bits);
        assert forall|rank: int| 0 <= rank < group.len() implies is_sibling(
            first,
            #[trigger] trial_at(bytes, index + rank),
            rank,
        ) by {
            lemma_all_trials_take(groups, count, rank);
            a_packed_trial_keeps_its_worth(group[rank].record, group[rank].heuristic_bits);
        }
        assert(group[0].record.candidate_count == group.len());
        assert(groups.take(count + 1).drop_last() =~= groups.take(count));
        assert(groups.take(count + 1).last() == group);
        lemma_groups_from(bytes, groups, count + 1);
        assert(le16(first, 254) == group.len());
    }
}

proof fn lemma_regroup(
    m: Seq<u8>,
    a: Seq<u8>,
    b: Seq<u8>,
    c: Seq<u8>,
    d: Seq<u8>,
    zeros: Seq<u8>,
    body: Seq<u8>,
)
    ensures
        ({
            let bytes = m + a + b + c + d + zeros + body;
            let z = zeros + body;
            &&& bytes.take(m.len() as int) == m
            &&& bytes == m + a + (b + c + d + z)
            &&& bytes == (m + a) + b + (c + d + z)
            &&& bytes == (m + a + b) + c + (d + z)
            &&& bytes == (m + a + b + c) + d + z
        }),
{
    let bytes = m + a + b + c + d + zeros + body;
    let z = zeros + body;
    assert(bytes.take(m.len() as int) =~= m);
    assert(bytes =~= m + a + (b + c + d + z));
    assert(bytes =~= (m + a) + b + (c + d + z));
    assert(bytes =~= (m + a + b) + c + (d + z));
    assert(bytes =~= (m + a + b + c) + d + z);
}

#[verifier::opaque]
spec fn has_header(bytes: Seq<u8>, groups: int, records: int) -> bool {
    &&& bytes.take(8) == TRIAL_MAGIC@
    &&& le32(bytes, 8) == 1
    &&& le32(bytes, 12) == 288
    &&& le64(bytes, 16) == groups
    &&& le64(bytes, 24) == records
}

proof fn lemma_header_fields(
    bytes: Seq<u8>,
    parts: (Seq<u8>, Seq<u8>, Seq<u8>, Seq<u8>, Seq<u8>),
    rest: Seq<u8>,
    groups: int,
    records: int,
)
    requires
        0 <= groups < 0x1_0000_0000_0000_0000,
        0 <= records < 0x1_0000_0000_0000_0000,
        parts.0 == TRIAL_MAGIC@,
        parts.0.len() == 8,
        parts.1 == le32_bytes(1),
        parts.1.len() == 4,
        parts.2 == le32_bytes(288),
        parts.2.len() == 4,
        parts.3 == le64_bytes(groups),
        parts.3.len() == 8,
        parts.4 == le64_bytes(records),
        bytes.take(8) == parts.0,
        bytes == parts.0 + parts.1 + (parts.2 + parts.3 + parts.4 + rest),
        bytes == (parts.0 + parts.1) + parts.2 + (parts.3 + parts.4 + rest),
        bytes == (parts.0 + parts.1 + parts.2) + parts.3 + (parts.4 + rest),
        bytes == (parts.0 + parts.1 + parts.2 + parts.3) + parts.4 + rest,
    ensures
        has_header(bytes, groups, records),
{
    let (m, a, b, c, d) = parts;
    lemma_read32(bytes, m, 1, b + c + d + rest, 8);
    lemma_read32(bytes, m + a, 288, c + d + rest, 12);
    lemma_read64(bytes, m + a + b, groups, d + rest, 16);
    lemma_read64(bytes, m + a + b + c, records, rest, 24);
    reveal(has_header);
}

proof fn lemma_header_reads_back(groups: int, records: int, body: Seq<u8>)
    requires
        0 <= groups < 0x1_0000_0000_0000_0000,
        0 <= records < 0x1_0000_0000_0000_0000,
    ensures
        trial_header(groups, records).len() == 64,
        has_header(trial_header(groups, records) + body, groups, records),
{
    let m = TRIAL_MAGIC@;
    let a = le32_bytes(1);
    let b = le32_bytes(288);
    let c = le64_bytes(groups);
    let d = le64_bytes(records);
    let zeros = Seq::new(32, |i: int| 0u8);
    let bytes = trial_header(groups, records) + body;
    lemma_regroup(m, a, b, c, d, zeros, body);
    lemma_header_fields(bytes, (m, a, b, c, d), zeros + body, groups, records);
}

/// A header and the trials of groups make a file that opens into these groups.
pub proof fn a_written_file_of_trials_opens(groups: Seq<Seq<PackedTrial>>)
    requires
        forall|g: int| 0 <= g < groups.len() ==> is_written_group(#[trigger] groups[g]),
        groups.len() < 0x1_0000_0000_0000_0000,
        all_trials(groups).len() < 0x1_0000_0000_0000_0000,
    ensures
        file_groups(
            trial_header(groups.len() as int, all_trials(groups).len() as int) + trials_bytes(
                all_trials(groups),
            ),
        ) == Ok::<Seq<Group>, TrialDataFault>(written_groups(groups)),
{
    let trials = all_trials(groups);
    let head = trial_header(groups.len() as int, trials.len() as int);
    let bytes = head + trials_bytes(trials);
    lemma_header_reads_back(groups.len() as int, trials.len() as int, trials_bytes(trials));
    lemma_trials_len(trials);
    lemma_written_groups_len(groups);
    assert forall|i: int| 0 <= i < trials.len() implies #[trigger] trial_at(bytes, i)
        == trial_bytes(trials[i].record, trials[i].heuristic_bits) by {
        lemma_trials_bytes(head, trials, Seq::empty(), i);
        assert(head + trials_bytes(trials) + Seq::<u8>::empty() =~= bytes);
    }
    lemma_groups_from(bytes, groups, 0);
    reveal(has_header);
    assert(groups.take(0) =~= Seq::<Seq<PackedTrial>>::empty());
}

proof fn lemma_written_groups_len(groups: Seq<Seq<PackedTrial>>)
    ensures
        written_groups(groups).len() == groups.len(),
    decreases groups.len(),
{
    if groups.len() > 0 {
        lemma_written_groups_len(groups.drop_last());
    }
}

} // verus!
