//! Compressed shards: records as lines, packed with gzip, member after member.

use std::io::{Read, Write};

use flate2::read::MultiGzDecoder;
use flate2::write::GzEncoder;
use flate2::Compression;
use vstd::prelude::*;

use crate::bytes::push_bytes;

verus! {

/// How hard shards are compressed.
pub const SHARD_COMPRESSION: u32 = 6;

/// What `GzEncoder` makes of bytes at a compression level.
pub uninterp spec fn gzipped(raw: Seq<u8>, level: u32) -> Option<Seq<u8>>;

/// What `MultiGzDecoder` makes of the members of a gzip file.
pub uninterp spec fn gunzipped(packed: Seq<u8>) -> Option<Seq<u8>>;

/// Compresses bytes into one gzip member, with `flate2::write::GzEncoder` over a
/// vector. What comes out depends on the bytes and the level alone: the encoder
/// writes no time and no system into the header. Decoding gives the bytes back.
#[verifier::external_body]
fn gzip(raw: &[u8], level: u32) -> (packed: Option<Vec<u8>>)
    requires
        level <= 9,
    ensures
        packed.is_some() == gzipped(raw@, level).is_some(),
        packed matches Some(found) ==> gzipped(raw@, level) == Some(found@),
        packed matches Some(found) ==> gunzipped(found@) == Some(raw@),
{
    let mut encoder = GzEncoder::new(Vec::new(), Compression::new(level));
    encoder.write_all(raw).ok()?;
    encoder.finish().ok()
}

/// Whether a decoded file holds what its parts hold, wherever it is cut into two
/// parts that decode.
pub open spec fn joins_members(packed: Seq<u8>, raw: Option<Seq<u8>>) -> bool {
    forall|first: Seq<u8>, second: Seq<u8>|
        packed == #[trigger] (first + second) && gunzipped(first).is_some() && gunzipped(
            second,
        ).is_some() ==> raw == Some(gunzipped(first).unwrap() + gunzipped(second).unwrap())
}

pub open spec fn bytes_view(bytes: Option<Vec<u8>>) -> Option<Seq<u8>> {
    match bytes {
        None => None,
        Some(found) => Some(found@),
    }
}

/// Decompresses all members of a gzip file, with `flate2::read::MultiGzDecoder`;
/// nothing where one of them is damaged. A file of two parts that decode by themselves
/// decodes to what they hold, in order.
#[verifier::external_body]
fn gunzip(packed: &[u8]) -> (raw: Option<Vec<u8>>)
    ensures
        raw.is_some() == gunzipped(packed@).is_some(),
        raw matches Some(found) ==> gunzipped(packed@) == Some(found@),
        joins_members(packed@, bytes_view(raw)),
{
    let mut raw = Vec::new();
    MultiGzDecoder::new(packed).read_to_end(&mut raw).ok()?;
    Some(raw)
}

// ---------------------------------------------------------------------------
// Lines
// ---------------------------------------------------------------------------

pub open spec fn line_views(lines: Seq<Vec<u8>>) -> Seq<Seq<u8>> {
    Seq::new(lines.len(), |i: int| lines[i]@)
}

/// Lines one after the other, each with a line feed behind it.
pub open spec fn joined_lines(lines: Seq<Seq<u8>>) -> Seq<u8>
    decreases lines.len(),
{
    if lines.len() == 0 {
        Seq::empty()
    } else {
        joined_lines(lines.drop_last()) + lines.last().push(0x0a)
    }
}

/// A line without the carriage return at its end.
pub open spec fn without_return(line: Seq<u8>) -> Seq<u8> {
    if line.len() > 0 && line.last() == 0x0d {
        line.drop_last()
    } else {
        line
    }
}

/// The lines that end within a text, and what follows the last of them.
pub open spec fn split_lines(text: Seq<u8>) -> (Seq<Seq<u8>>, Seq<u8>)
    decreases text.len(),
{
    if text.len() == 0 {
        (Seq::empty(), Seq::empty())
    } else {
        let (lines, rest) = split_lines(text.drop_last());
        if text.last() == 0x0a {
            (lines.push(without_return(rest)), Seq::empty())
        } else {
            (lines, rest.push(text.last()))
        }
    }
}

/// The lines of a text; a last line need not end.
pub open spec fn lines_of(text: Seq<u8>) -> Seq<Seq<u8>> {
    let (lines, rest) = split_lines(text);
    if rest.len() == 0 {
        lines
    } else {
        lines.push(rest)
    }
}

/// Whether a line reads back as it was written: it holds no line feed and does not
/// end in a carriage return.
pub open spec fn is_plain_line(line: Seq<u8>) -> bool {
    &&& forall|i: int| 0 <= i < line.len() ==> #[trigger] line[i] != 0x0a
    &&& line.len() == 0 || line.last() != 0x0d
}

proof fn lemma_split_line(text: Seq<u8>, line: Seq<u8>)
    requires
        split_lines(text).1.len() == 0,
        forall|i: int| 0 <= i < line.len() ==> #[trigger] line[i] != 0x0a,
    ensures
        split_lines(text + line) == (split_lines(text).0, line),
    decreases line.len(),
{
    if line.len() == 0 {
        assert(text + line =~= text);
        assert(split_lines(text).1 =~= line);
    } else {
        let shorter = line.drop_last();
        assert forall|i: int| 0 <= i < shorter.len() implies #[trigger] shorter[i] != 0x0a by {
            assert(line[i] == shorter[i]);
        }
        lemma_split_line(text, shorter);
        assert((text + line).drop_last() =~= text + shorter);
        assert((text + line).last() == line[line.len() - 1]);
        assert(shorter.push(line.last()) =~= line);
    }
}

proof fn lemma_split_joined(lines: Seq<Seq<u8>>)
    requires
        forall|i: int| 0 <= i < lines.len() ==> is_plain_line(#[trigger] lines[i]),
    ensures
        split_lines(joined_lines(lines)) == (lines, Seq::<u8>::empty()),
    decreases lines.len(),
{
    if lines.len() == 0 {
        assert(lines =~= Seq::<Seq<u8>>::empty());
    } else {
        let before = lines.drop_last();
        assert forall|i: int| 0 <= i < before.len() implies is_plain_line(#[trigger] before[i]) by {
            assert(lines[i] == before[i]);
        }
        lemma_split_joined(before);
        let line = lines.last();
        assert(is_plain_line(lines[lines.len() - 1]));
        let text = joined_lines(before);
        lemma_split_line(text, line);
        let whole = joined_lines(lines);
        assert(whole.drop_last() =~= text + line);
        assert(whole.last() == 0x0a);
        assert(before.push(line) =~= lines);
    }
}

/// Plain lines that were joined read back as the same lines.
pub proof fn joined_lines_read_back(lines: Seq<Seq<u8>>)
    requires
        forall|i: int| 0 <= i < lines.len() ==> is_plain_line(#[trigger] lines[i]),
    ensures
        lines_of(joined_lines(lines)) == lines,
{
    lemma_split_joined(lines);
}

/// Joins lines, each with a line feed behind it.
pub fn join_lines(lines: &Vec<Vec<u8>>) -> (text: Vec<u8>)
    ensures
        text@ == joined_lines(line_views(lines@)),
{
    let mut text: Vec<u8> = Vec::new();
    let ghost views = line_views(lines@);
    let mut index: usize = 0;
    assert(views.take(0) =~= Seq::<Seq<u8>>::empty());
    while index < lines.len()
        invariant
            index <= lines.len(),
            views == line_views(lines@),
            text@ == joined_lines(views.take(index as int)),
        decreases lines.len() - index,
    {
        push_bytes(&mut text, lines[index].as_slice());
        text.push(0x0a);
        assert(views.take(index + 1).drop_last() =~= views.take(index as int));
        assert(views[index as int] == lines@[index as int]@);
        index += 1;
        assert(text@ =~= joined_lines(views.take(index as int)));
    }
    assert(views.take(lines.len() as int) =~= views);
    text
}

/// Splits a text into its lines.
pub fn read_lines(text: &Vec<u8>) -> (lines: Vec<Vec<u8>>)
    ensures
        line_views(lines@) == lines_of(text@),
{
    let mut lines: Vec<Vec<u8>> = Vec::new();
    let mut rest: Vec<u8> = Vec::new();
    let mut index: usize = 0;
    assert(text@.take(0) =~= Seq::<u8>::empty());
    assert(line_views(lines@) =~= Seq::<Seq<u8>>::empty());
    while index < text.len()
        invariant
            index <= text.len(),
            split_lines(text@.take(index as int)) == (line_views(lines@), rest@),
        decreases text.len() - index,
    {
        let ghost before = line_views(lines@);
        assert(text@.take(index + 1).drop_last() =~= text@.take(index as int));
        assert(text@.take(index + 1).last() == text@[index as int]);
        if text[index] == 0x0a {
            let length: usize = rest.len();
            if length > 0 && rest[length - 1] == 0x0d {
                let ghost whole = rest@;
                rest.truncate(length - 1);
                assert(rest@ =~= whole.drop_last());
            }
            let ghost line = rest@;
            lines.push(rest);
            assert(line_views(lines@) =~= before.push(line));
            rest = Vec::new();
            assert(rest@ =~= Seq::<u8>::empty());
        } else {
            rest.push(text[index]);
        }
        index += 1;
    }
    assert(text@.take(text.len() as int) =~= text@);
    if rest.len() > 0 {
        let ghost before = line_views(lines@);
        let ghost line = rest@;
        lines.push(rest);
        assert(line_views(lines@) =~= before.push(line));
    }
    lines
}

// ---------------------------------------------------------------------------
// Shards
// ---------------------------------------------------------------------------

/// The gzip member that holds records as lines.
pub fn pack_records(records: &Vec<Vec<u8>>) -> (packed: Option<Vec<u8>>)
    ensures
        packed.is_some() == gzipped(joined_lines(line_views(records@)), 6).is_some(),
        packed matches Some(found) ==> gzipped(joined_lines(line_views(records@)), 6) == Some(
            found@,
        ),
        packed matches Some(found) ==> gunzipped(found@) == Some(
            joined_lines(line_views(records@)),
        ),
{
    let text: Vec<u8> = join_lines(records);
    gzip(text.as_slice(), SHARD_COMPRESSION)
}

/// The records of a shard, once it is decompressed.
pub open spec fn shard_records(packed: Seq<u8>) -> Option<Seq<Seq<u8>>> {
    match gunzipped(packed) {
        None => None,
        Some(text) => Some(lines_of(text)),
    }
}

/// The records of a shard; nothing where it is damaged.
pub fn unpack_records(packed: &[u8]) -> (records: Option<Vec<Vec<u8>>>)
    ensures
        records.is_some() == shard_records(packed@).is_some(),
        records matches Some(found) ==> shard_records(packed@) == Some(line_views(found@)),
        joins_members(packed@, gunzipped(packed@)),
{
    match gunzip(packed) {
        None => None,
        Some(text) => Some(read_lines(&text)),
    }
}

/// A packed shard of plain records reads back as the same records.
pub proof fn a_packed_shard_reads_back(records: Seq<Seq<u8>>, packed: Seq<u8>)
    requires
        forall|i: int| 0 <= i < records.len() ==> is_plain_line(#[trigger] records[i]),
        gunzipped(packed) == Some(joined_lines(records)),
    ensures
        shard_records(packed) == Some(records),
{
    joined_lines_read_back(records);
}

proof fn lemma_joined_concat(left: Seq<Seq<u8>>, right: Seq<Seq<u8>>)
    ensures
        joined_lines(left + right) == joined_lines(left) + joined_lines(right),
    decreases right.len(),
{
    if right.len() == 0 {
        assert(left + right =~= left);
        assert(joined_lines(left) + joined_lines(right) =~= joined_lines(left));
    } else {
        lemma_joined_concat(left, right.drop_last());
        assert((left + right).drop_last() =~= left + right.drop_last());
        assert((left + right).last() == right.last());
        assert(joined_lines(left + right) =~= joined_lines(left) + joined_lines(right));
    }
}

/// Members that are appended to a shard read back in the order they were appended.
pub proof fn appended_members_read_back(
    first: Seq<Seq<u8>>,
    second: Seq<Seq<u8>>,
    packed: Seq<u8>,
)
    requires
        forall|i: int| 0 <= i < first.len() ==> is_plain_line(#[trigger] first[i]),
        forall|i: int| 0 <= i < second.len() ==> is_plain_line(#[trigger] second[i]),
        gunzipped(packed) == Some(joined_lines(first) + joined_lines(second)),
    ensures
        shard_records(packed) == Some(first + second),
{
    lemma_joined_concat(first, second);
    let both = first + second;
    assert forall|i: int| 0 <= i < both.len() implies is_plain_line(#[trigger] both[i]) by {
        if i < first.len() {
            assert(both[i] == first[i]);
        } else {
            assert(both[i] == second[i - first.len()]);
        }
    }
    joined_lines_read_back(both);
}

} // verus!
