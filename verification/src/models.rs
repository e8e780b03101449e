//! Learned models as files: a header and one block of 32-bit weights.
//!
//! Weights are kept as their binary32 bit patterns.

use vstd::prelude::*;

use crate::bytes::{
    has_magic, le32, le32_bytes, le32_reads_back, le32_run, push_bytes, push_u32, read_u32,
    read_u32_run,
};

verus! {

pub const HEADER_BYTES: usize = 32;

pub const LETTER_EMBED: usize = 8;

pub const BOUNDARY_EMBED: usize = 3;

pub const ROW_INPUT: usize = 145;

pub const ROW_HIDDEN: usize = 64;

pub const ROW_OUTPUT: usize = 16;

pub const HEAD_INPUT: usize = 69;

pub const HEAD_HIDDEN: usize = 64;

/// How many weights a network has before its last layer.
pub const TRUNK_WEIGHTS: usize = 15_089;

pub const FRAGMENT_OUTPUTS: usize = 7;

pub const FRAGMENT_WEIGHTS: usize = 15_544;

pub const RANK_OUTPUTS: usize = 4;

pub const RANK_WEIGHTS: usize = 15_349;

/// The first eight bytes of a fragment model: KVFM1 and three zeros.
pub const FRAGMENT_MAGIC: [u8; 8] = [0x4b, 0x56, 0x46, 0x4d, 0x31, 0, 0, 0];

/// The first eight bytes of a root ranker: KVRK1 and three zeros.
pub const RANK_MAGIC: [u8; 8] = [0x4b, 0x56, 0x52, 0x4b, 0x31, 0, 0, 0];

/// Whether 32 bits stand for a finite number.
pub open spec fn is_finite32(bits: u32) -> bool {
    (bits as int) / 0x80_0000 % 0x100 != 0xff
}

/// Where each of a network's ten tensors begins, counted in weights.
pub open spec fn tensor_start(tensor: int, outputs: int) -> int {
    if tensor <= 0 {
        0
    } else if tensor == 1 {
        216
    } else if tensor == 2 {
        225
    } else if tensor == 3 {
        9_505
    } else if tensor == 4 {
        9_569
    } else if tensor == 5 {
        10_593
    } else if tensor == 6 {
        10_609
    } else if tensor == 7 {
        15_025
    } else if tensor == 8 {
        15_089
    } else if tensor == 9 {
        15_089 + 64 * outputs
    } else {
        15_089 + 65 * outputs
    }
}

/// The weights of a network, one list per tensor.
#[derive(Clone)]
pub struct Network {
    pub letter_embedding: Vec<u32>,
    pub boundary_embedding: Vec<u32>,
    pub row_1_weight: Vec<u32>,
    pub row_1_bias: Vec<u32>,
    pub row_2_weight: Vec<u32>,
    pub row_2_bias: Vec<u32>,
    pub head_1_weight: Vec<u32>,
    pub head_1_bias: Vec<u32>,
    pub head_2_weight: Vec<u32>,
    pub head_2_bias: Vec<u32>,
}

impl Network {
    /// One of the ten tensors.
    pub open spec fn tensor(&self, tensor: int) -> Seq<u32> {
        if tensor == 0 {
            self.letter_embedding@
        } else if tensor == 1 {
            self.boundary_embedding@
        } else if tensor == 2 {
            self.row_1_weight@
        } else if tensor == 3 {
            self.row_1_bias@
        } else if tensor == 4 {
            self.row_2_weight@
        } else if tensor == 5 {
            self.row_2_bias@
        } else if tensor == 6 {
            self.head_1_weight@
        } else if tensor == 7 {
            self.head_1_bias@
        } else if tensor == 8 {
            self.head_2_weight@
        } else {
            self.head_2_bias@
        }
    }

    /// Whether these are the weights of a file, cut into tensors.
    pub open spec fn holds(&self, weights: Seq<u32>, outputs: int) -> bool {
        forall|t: int|
            0 <= t < 10 ==> #[trigger] self.tensor(t) == weights.subrange(
                tensor_start(t, outputs),
                tensor_start(t + 1, outputs),
            )
    }
}

pub enum ModelFault {
    Shape,
    Architecture,
    Weight,
}

/// All weights of a model file.
pub open spec fn file_weights(bytes: Seq<u8>, count: int) -> Seq<u32> {
    le32_run(bytes, 32, count as nat)
}

pub open spec fn has_shape(bytes: Seq<u8>, magic: Seq<u8>, count: int) -> bool {
    bytes.len() == 32 + 4 * count && bytes.take(8) == magic
}

pub open spec fn has_architecture(bytes: Seq<u8>, count: int, outputs: int) -> bool {
    &&& le32(bytes, 8) == 1
    &&& le32(bytes, 12) == count
    &&& le32(bytes, 16) == outputs
    &&& le32(bytes, 20) == 10
}

pub open spec fn all_finite(weights: Seq<u32>) -> bool {
    forall|i: int| 0 <= i < weights.len() ==> is_finite32(#[trigger] weights[i])
}

fn weights_finite(weights: &Vec<u32>) -> (finite: bool)
    ensures
        finite == all_finite(weights@),
{
    let mut index: usize = 0;
    while index < weights.len()
        invariant
            index <= weights.len(),
            forall|i: int| 0 <= i < index ==> is_finite32(#[trigger] weights@[i]),
        decreases weights.len() - index,
    {
        if weights[index] / 0x80_0000 % 0x100 == 0xff {
            assert(!is_finite32(weights@[index as int]));
            return false;
        }
        index += 1;
    }
    true
}

fn copy_weights(weights: &Vec<u32>, start: usize, end: usize) -> (part: Vec<u32>)
    requires
        start <= end <= weights.len(),
    ensures
        part@ == weights@.subrange(start as int, end as int),
{
    let mut part: Vec<u32> = Vec::new();
    let mut index: usize = start;
    while index < end
        invariant
            start <= index <= end <= weights.len(),
            part@ == weights@.subrange(start as int, index as int),
        decreases end - index,
    {
        part.push(weights[index]);
        index += 1;
        assert(part@ =~= weights@.subrange(start as int, index as int));
    }
    part
}

/// Reads a model file and cuts its weights into tensors.
fn read_network(bytes: &[u8], magic: &[u8; 8], count: usize, outputs: usize) -> (network: Result<
    Network,
    ModelFault,
>)
    requires
        outputs <= 100,
        count == 15_089 + 65 * outputs,
    ensures
        match network {
            Ok(found) => {
                &&& has_shape(bytes@, magic@, count as int)
                &&& has_architecture(bytes@, count as int, outputs as int)
                &&& all_finite(file_weights(bytes@, count as int))
                &&& found.holds(file_weights(bytes@, count as int), outputs as int)
            },
            Err(ModelFault::Shape) => !has_shape(bytes@, magic@, count as int),
            Err(ModelFault::Architecture) => {
                &&& has_shape(bytes@, magic@, count as int)
                &&& !has_architecture(bytes@, count as int, outputs as int)
            },
            Err(ModelFault::Weight) => {
                &&& has_shape(bytes@, magic@, count as int)
                &&& has_architecture(bytes@, count as int, outputs as int)
                &&& !all_finite(file_weights(bytes@, count as int))
            },
        },
{
    if bytes.len() != HEADER_BYTES + count * 4 || !has_magic(bytes, magic) {
        return Err(ModelFault::Shape);
    }
    if read_u32(bytes, 8) != 1 || read_u32(bytes, 12) as usize != count || read_u32(bytes, 16)
        as usize != outputs || read_u32(bytes, 20) != 10 {
        return Err(ModelFault::Architecture);
    }
    let weights: Vec<u32> = read_u32_run(bytes, HEADER_BYTES, count);
    if !weights_finite(&weights) {
        return Err(ModelFault::Weight);
    }
    let last: usize = TRUNK_WEIGHTS + 64 * outputs;
    let network = Network {
        letter_embedding: copy_weights(&weights, 0, 216),
        boundary_embedding: copy_weights(&weights, 216, 225),
        row_1_weight: copy_weights(&weights, 225, 9_505),
        row_1_bias: copy_weights(&weights, 9_505, 9_569),
        row_2_weight: copy_weights(&weights, 9_569, 10_593),
        row_2_bias: copy_weights(&weights, 10_593, 10_609),
        head_1_weight: copy_weights(&weights, 10_609, 15_025),
        head_1_bias: copy_weights(&weights, 15_025, 15_089),
        head_2_weight: copy_weights(&weights, 15_089, last),
        head_2_bias: copy_weights(&weights, last, count),
    };
    Ok(network)
}

pub const FRAGMENT_SHAPE_ERROR: &'static str = "fragment model has an invalid magic or length";

pub const FRAGMENT_ARCHITECTURE_ERROR: &'static str = "fragment model architecture is unsupported";

pub const FRAGMENT_WEIGHT_ERROR: &'static str = "fragment model contains a non-finite weight";

pub const RANK_SHAPE_ERROR: &'static str = "root ranker has an invalid magic or length";

pub const RANK_ARCHITECTURE_ERROR: &'static str = "root ranker architecture is unsupported";

pub const RANK_WEIGHT_ERROR: &'static str = "root ranker contains a non-finite weight";

/// Whether bytes are a fragment model.
pub open spec fn is_fragment_model(bytes: Seq<u8>) -> bool {
    &&& has_shape(bytes, FRAGMENT_MAGIC@, 15_544)
    &&& has_architecture(bytes, 15_544, 7)
    &&& all_finite(file_weights(bytes, 15_544))
}

/// What a fragment model reader answers to bytes that are none.
pub open spec fn fragment_fault(bytes: Seq<u8>) -> Seq<char> {
    if !has_shape(bytes, FRAGMENT_MAGIC@, 15_544) {
        FRAGMENT_SHAPE_ERROR@
    } else if !has_architecture(bytes, 15_544, 7) {
        FRAGMENT_ARCHITECTURE_ERROR@
    } else {
        FRAGMENT_WEIGHT_ERROR@
    }
}

/// Whether bytes are a root ranker.
pub open spec fn is_rank_model(bytes: Seq<u8>) -> bool {
    &&& has_shape(bytes, RANK_MAGIC@, 15_349)
    &&& has_architecture(bytes, 15_349, 4)
    &&& all_finite(file_weights(bytes, 15_349))
}

/// What a root ranker reader answers to bytes that are none.
pub open spec fn rank_fault(bytes: Seq<u8>) -> Seq<char> {
    if !has_shape(bytes, RANK_MAGIC@, 15_349) {
        RANK_SHAPE_ERROR@
    } else if !has_architecture(bytes, 15_349, 4) {
        RANK_ARCHITECTURE_ERROR@
    } else {
        RANK_WEIGHT_ERROR@
    }
}

/// A model that predicts what a board's rows will bring.
#[derive(Clone)]
pub struct FragmentModel {
    pub network: Network,
}

impl FragmentModel {
    pub fn from_bytes(bytes: &[u8]) -> (model: Result<Self, String>)
        ensures
            model.is_ok() == is_fragment_model(bytes@),
            model matches Ok(found) ==> found.network.holds(file_weights(bytes@, 15_544), 7),
            model matches Err(text) ==> text@ == fragment_fault(bytes@),
    {
        match read_network(bytes, &FRAGMENT_MAGIC, FRAGMENT_WEIGHTS, FRAGMENT_OUTPUTS) {
            Ok(network) => Ok(FragmentModel { network }),
            Err(ModelFault::Shape) => Err(FRAGMENT_SHAPE_ERROR.to_owned()),
            Err(ModelFault::Architecture) => Err(FRAGMENT_ARCHITECTURE_ERROR.to_owned()),
            Err(ModelFault::Weight) => Err(FRAGMENT_WEIGHT_ERROR.to_owned()),
        }
    }
}

/// A full model and one that does not see letters.
#[derive(Clone)]
pub struct FragmentModelPair {
    pub full: FragmentModel,
    pub context: FragmentModel,
}

impl FragmentModelPair {
    pub fn from_bytes(full: &[u8], context: &[u8]) -> (pair: Result<Self, String>)
        ensures
            pair.is_ok() == (is_fragment_model(full@) && is_fragment_model(context@)),
            pair matches Ok(found) ==> {
                &&& found.full.network.holds(file_weights(full@, 15_544), 7)
                &&& found.context.network.holds(file_weights(context@, 15_544), 7)
            },
            pair matches Err(text) ==> text@ == (if !is_fragment_model(full@) {
                fragment_fault(full@)
            } else {
                fragment_fault(context@)
            }),
    {
        match FragmentModel::from_bytes(full) {
            Err(text) => Err(text),
            Ok(full) => match FragmentModel::from_bytes(context) {
                Err(text) => Err(text),
                Ok(context) => Ok(FragmentModelPair { full, context }),
            },
        }
    }
}

/// A model that corrects the value of a first placement.
#[derive(Clone)]
pub struct RootRankModel {
    pub network: Network,
}

impl RootRankModel {
    pub fn from_bytes(bytes: &[u8]) -> (model: Result<Self, String>)
        ensures
            model.is_ok() == is_rank_model(bytes@),
            model matches Ok(found) ==> found.network.holds(file_weights(bytes@, 15_349), 4),
            model matches Err(text) ==> text@ == rank_fault(bytes@),
    {
        match read_network(bytes, &RANK_MAGIC, RANK_WEIGHTS, RANK_OUTPUTS) {
            Ok(network) => Ok(RootRankModel { network }),
            Err(ModelFault::Shape) => Err(RANK_SHAPE_ERROR.to_owned()),
            Err(ModelFault::Architecture) => Err(RANK_ARCHITECTURE_ERROR.to_owned()),
            Err(ModelFault::Weight) => Err(RANK_WEIGHT_ERROR.to_owned()),
        }
    }
}

// ---------------------------------------------------------------------------
// Writing a model
// ---------------------------------------------------------------------------

/// The weights as bytes, in order.
pub open spec fn weight_bytes(weights: Seq<u32>) -> Seq<u8>
    decreases weights.len(),
{
    if weights.len() == 0 {
        Seq::empty()
    } else {
        weight_bytes(weights.drop_last()) + le32_bytes(weights.last() as int)
    }
}

/// The header of a fragment model.
pub open spec fn fragment_header() -> Seq<u8> {
    FRAGMENT_MAGIC@ + le32_bytes(1) + le32_bytes(15_544) + le32_bytes(7) + le32_bytes(10)
        + seq![0u8, 0, 0, 0, 0, 0, 0, 0]
}

/// A fragment model with these weights.
pub open spec fn fragment_file(weights: Seq<u32>) -> Seq<u8> {
    fragment_header() + weight_bytes(weights)
}

/// The shape of each of the ten tensors of a fragment model; a second dimension
/// of zero stands for none.
pub const FRAGMENT_DIMENSIONS: [[usize; 2]; 10] = [
    [27, 8],
    [3, 3],
    [64, 145],
    [64, 0],
    [16, 64],
    [16, 0],
    [64, 69],
    [64, 0],
    [7, 64],
    [7, 0],
];

/// Whether a tensor has the shape that a fragment model needs.
pub fn has_dimensions(tensor: usize, dimensions: &[usize]) -> (same: bool)
    requires
        tensor < 10,
    ensures
        same == ({
            let wanted = FRAGMENT_DIMENSIONS@[tensor as int]@;
            if wanted[1] == 0 {
                dimensions@ == seq![wanted[0]]
            } else {
                dimensions@ == seq![wanted[0], wanted[1]]
            }
        }),
{
    let wanted: [usize; 2] = FRAGMENT_DIMENSIONS[tensor];
    let same: bool = if wanted[1] == 0 {
        dimensions.len() == 1 && dimensions[0] == wanted[0]
    } else {
        dimensions.len() == 2 && dimensions[0] == wanted[0] && dimensions[1] == wanted[1]
    };
    proof {
        if same && wanted[1] == 0 {
            assert(dimensions@ =~= seq![wanted[0]]);
        } else if same {
            assert(dimensions@ =~= seq![wanted[0], wanted[1]]);
        }
    }
    same
}

/// A fragment model with these weights, as a file.
pub fn export_fragment_model(weights: &[u32]) -> (bytes: Vec<u8>)
    requires
        weights.len() == 15_544,
    ensures
        bytes@ == fragment_file(weights@),
{
    let mut bytes: Vec<u8> = Vec::new();
    push_bytes(&mut bytes, FRAGMENT_MAGIC.as_slice());
    push_u32(&mut bytes, 1);
    push_u32(&mut bytes, FRAGMENT_WEIGHTS as u32);
    push_u32(&mut bytes, FRAGMENT_OUTPUTS as u32);
    push_u32(&mut bytes, 10);
    let padding: [u8; 8] = [0u8; 8];
    push_bytes(&mut bytes, padding.as_slice());
    assert(padding@ =~= seq![0u8, 0, 0, 0, 0, 0, 0, 0]);
    assert(bytes@ =~= fragment_header());
    let mut index: usize = 0;
    assert(weights@.take(0) =~= Seq::<u32>::empty());
    assert(bytes@ =~= fragment_header() + weight_bytes(weights@.take(0)));
    while index < weights.len()
        invariant
            index <= weights.len(),
            bytes@ == fragment_header() + weight_bytes(weights@.take(index as int)),
        decreases weights.len() - index,
    {
        push_u32(&mut bytes, weights[index]);
        assert(weights@.take(index + 1).drop_last() =~= weights@.take(index as int));
        index += 1;
        assert(bytes@ =~= fragment_header() + weight_bytes(weights@.take(index as int)));
    }
    assert(weights@.take(weights.len() as int) =~= weights@);
    bytes
}

proof fn lemma_weight_bytes(before: Seq<u8>, weights: Seq<u32>, after: Seq<u8>)
    ensures
        weight_bytes(weights).len() == 4 * weights.len(),
        forall|i: int|
            0 <= i < weights.len() ==> #[trigger] weights[i] == le32(
                before + weight_bytes(weights) + after,
                before.len() + 4 * i,
            ),
    decreases weights.len(),
{
    if weights.len() > 0 {
        let shorter = weights.drop_last();
        let last = le32_bytes(weights.last() as int);
        lemma_weight_bytes(before, shorter, last + after);
        let all = before + weight_bytes(weights) + after;
        assert(all =~= before + weight_bytes(shorter) + (last + after));
        assert(all =~= (before + weight_bytes(shorter)) + last + after);
        le32_reads_back(before + weight_bytes(shorter), weights.last() as int, after);
        assert forall|i: int| 0 <= i < weights.len() implies #[trigger] weights[i] == le32(
            all,
            before.len() + 4 * i,
        ) by {
            if i < shorter.len() {
                assert(shorter[i] == weights[i]);
            }
        }
    }
}

/// An exported model of finite weights reads back, weight by weight.
pub proof fn an_exported_model_reads_back(weights: Seq<u32>)
    requires
        weights.len() == 15_544,
        all_finite(weights),
    ensures
        is_fragment_model(fragment_file(weights)),
        file_weights(fragment_file(weights), 15_544) == weights,
{
    let file = fragment_file(weights);
    let empty = Seq::<u8>::empty();
    lemma_weight_bytes(fragment_header(), weights, empty);
    assert(file =~= fragment_header() + weight_bytes(weights) + empty);
    assert(fragment_header().len() == 32);
    assert(file.take(8) =~= FRAGMENT_MAGIC@);
    let tail = seq![0u8, 0, 0, 0, 0, 0, 0, 0] + weight_bytes(weights);
    let m = FRAGMENT_MAGIC@;
    le32_reads_back(m, 1, le32_bytes(15_544) + le32_bytes(7) + le32_bytes(10) + tail);
    assert(file =~= m + le32_bytes(1) + (le32_bytes(15_544) + le32_bytes(7) + le32_bytes(10)
        + tail));
    le32_reads_back(m + le32_bytes(1), 15_544, le32_bytes(7) + le32_bytes(10) + tail);
    assert(file =~= (m + le32_bytes(1)) + le32_bytes(15_544) + (le32_bytes(7) + le32_bytes(10)
        + tail));
    le32_reads_back(m + le32_bytes(1) + le32_bytes(15_544), 7, le32_bytes(10) + tail);
    assert(file =~= (m + le32_bytes(1) + le32_bytes(15_544)) + le32_bytes(7) + (le32_bytes(10)
        + tail));
    le32_reads_back(m + le32_bytes(1) + le32_bytes(15_544) + le32_bytes(7), 10, tail);
    assert(file =~= (m + le32_bytes(1) + le32_bytes(15_544) + le32_bytes(7)) + le32_bytes(10)
        + tail);
    assert(file_weights(file, 15_544) =~= weights) by {
        assert forall|i: int| 0 <= i < 15_544 implies file_weights(file, 15_544)[i]
            == #[trigger] weights[i] by {
            assert(weights[i] == le32(file, 32 + 4 * i));
        }
    }
}

} // verus!
