//! Little-endian numbers in byte sequences.

use vstd::prelude::*;

verus! {

/// The unsigned number in two bytes from `at`, low byte first.
pub open spec fn le16(bytes: Seq<u8>, at: int) -> int {
    bytes[at] + 0x100 * bytes[at + 1]
}

/// The unsigned number in four bytes from `at`, low byte first.
pub open spec fn le32(bytes: Seq<u8>, at: int) -> int {
    le16(bytes, at) + 0x1_0000 * le16(bytes, at + 2)
}

/// The unsigned number in eight bytes from `at`, low byte first.
pub open spec fn le64(bytes: Seq<u8>, at: int) -> int {
    le32(bytes, at) + 0x1_0000_0000 * le32(bytes, at + 4)
}

/// The signed number that 32 bits stand for.
pub open spec fn signed32(bits: int) -> int {
    if bits < 0x8000_0000 {
        bits
    } else {
        bits - 0x1_0000_0000
    }
}

/// The 32 bits of a signed number.
pub open spec fn bits32(value: int) -> int {
    if value < 0 {
        value + 0x1_0000_0000
    } else {
        value
    }
}

pub open spec fn le16_bytes(value: int) -> Seq<u8> {
    seq![(value % 0x100) as u8, (value / 0x100 % 0x100) as u8]
}

pub open spec fn le32_bytes(value: int) -> Seq<u8> {
    seq![
        (value % 0x100) as u8,
        (value / 0x100 % 0x100) as u8,
        (value / 0x1_0000 % 0x100) as u8,
        (value / 0x100_0000 % 0x100) as u8,
    ]
}

pub open spec fn le64_bytes(value: int) -> Seq<u8> {
    le32_bytes(value % 0x1_0000_0000) + le32_bytes(value / 0x1_0000_0000)
}

/// Two bytes written anywhere read back as the number.
pub proof fn le16_reads_back(before: Seq<u8>, value: int, after: Seq<u8>)
    requires
        0 <= value < 0x1_0000,
    ensures
        le16(before + le16_bytes(value) + after, before.len() as int) == value,
{
    let all = before + le16_bytes(value) + after;
    let at = before.len() as int;
    assert(all[at] == le16_bytes(value)[0]);
    assert(all[at + 1] == le16_bytes(value)[1]);
}

/// Four bytes written anywhere read back as the number.
pub proof fn le32_reads_back(before: Seq<u8>, value: int, after: Seq<u8>)
    requires
        0 <= value < 0x1_0000_0000,
    ensures
        le32(before + le32_bytes(value) + after, before.len() as int) == value,
{
    let all = before + le32_bytes(value) + after;
    let at = before.len() as int;
    assert(all[at] == le32_bytes(value)[0]);
    assert(all[at + 1] == le32_bytes(value)[1]);
    assert(all[at + 2] == le32_bytes(value)[2]);
    assert(all[at + 3] == le32_bytes(value)[3]);
}

/// Eight bytes written anywhere read back as the number.
pub proof fn le64_reads_back(before: Seq<u8>, value: int, after: Seq<u8>)
    requires
        0 <= value < 0x1_0000_0000_0000_0000,
    ensures
        le64(before + le64_bytes(value) + after, before.len() as int) == value,
{
    let low = le32_bytes(value % 0x1_0000_0000);
    let high = le32_bytes(value / 0x1_0000_0000);
    let all = before + le64_bytes(value) + after;
    assert(all =~= before + low + (high + after));
    assert(all =~= (before + low) + high + after);
    le32_reads_back(before, value % 0x1_0000_0000, high + after);
    le32_reads_back(before + low, value / 0x1_0000_0000, after);
}

/// A signed number is its bits read as signed.
pub proof fn signed_bits_read_back(value: int)
    requires
        -0x8000_0000 <= value < 0x8000_0000,
    ensures
        0 <= bits32(value) < 0x1_0000_0000,
        signed32(bits32(value)) == value,
{
}

pub fn read_u16(bytes: &[u8], at: usize) -> (value: u16)
    requires
        at + 2 <= bytes.len(),
    ensures
        value == le16(bytes@, at as int),
{
    bytes[at] as u16 + 0x100 * bytes[at + 1] as u16
}

pub fn read_u32(bytes: &[u8], at: usize) -> (value: u32)
    requires
        at + 4 <= bytes.len(),
    ensures
        value == le32(bytes@, at as int),
{
    read_u16(bytes, at) as u32 + 0x1_0000 * read_u16(bytes, at + 2) as u32
}

pub fn read_u64(bytes: &[u8], at: usize) -> (value: u64)
    requires
        at + 8 <= bytes.len(),
    ensures
        value == le64(bytes@, at as int),
{
    read_u32(bytes, at) as u64 + 0x1_0000_0000 * read_u32(bytes, at + 4) as u64
}

pub fn signed_of(bits: u32) -> (value: i32)
    ensures
        value == signed32(bits as int),
{
    if bits < 0x8000_0000 {
        bits as i32
    } else {
        (bits as i64 - 0x1_0000_0000) as i32
    }
}

pub fn bits_of(value: i32) -> (bits: u32)
    ensures
        bits == bits32(value as int),
{
    if value < 0 {
        (value as i64 + 0x1_0000_0000) as u32
    } else {
        value as u32
    }
}

pub fn read_i32(bytes: &[u8], at: usize) -> (value: i32)
    requires
        at + 4 <= bytes.len(),
    ensures
        value == signed32(le32(bytes@, at as int)),
{
    signed_of(read_u32(bytes, at))
}

pub fn push_u16(output: &mut Vec<u8>, value: u16)
    ensures
        final(output)@ == old(output)@ + le16_bytes(value as int),
{
    output.push((value % 0x100) as u8);
    output.push((value / 0x100 % 0x100) as u8);
    assert(output@ =~= old(output)@ + le16_bytes(value as int));
}

pub fn push_u32(output: &mut Vec<u8>, value: u32)
    ensures
        final(output)@ == old(output)@ + le32_bytes(value as int),
{
    output.push((value % 0x100) as u8);
    output.push((value / 0x100 % 0x100) as u8);
    output.push((value / 0x1_0000 % 0x100) as u8);
    output.push((value / 0x100_0000 % 0x100) as u8);
    assert(output@ =~= old(output)@ + le32_bytes(value as int));
}

pub fn push_i32(output: &mut Vec<u8>, value: i32)
    ensures
        final(output)@ == old(output)@ + le32_bytes(bits32(value as int)),
{
    push_u32(output, bits_of(value));
}

pub fn push_u64(output: &mut Vec<u8>, value: u64)
    ensures
        final(output)@ == old(output)@ + le64_bytes(value as int),
{
    push_u32(output, (value % 0x1_0000_0000) as u32);
    push_u32(output, (value / 0x1_0000_0000) as u32);
    assert(output@ =~= old(output)@ + le64_bytes(value as int));
}

/// Appends bytes.
pub fn push_bytes(output: &mut Vec<u8>, bytes: &[u8])
    ensures
        final(output)@ == old(output)@ + bytes@,
{
    let mut index: usize = 0;
    while index < bytes.len()
        invariant
            index <= bytes.len(),
            output@ == old(output)@ + bytes@.take(index as int),
        decreases bytes.len() - index,
    {
        output.push(bytes[index]);
        index += 1;
        assert(output@ =~= old(output)@ + bytes@.take(index as int));
    }
    assert(bytes@.take(bytes.len() as int) =~= bytes@);
}

/// The numbers in consecutive groups of four bytes from `at`.
pub open spec fn le32_run(bytes: Seq<u8>, at: int, count: nat) -> Seq<u32> {
    Seq::new(count, |i: int| le32(bytes, at + 4 * i) as u32)
}

/// Whether bytes begin with a file's mark.
pub fn has_magic(bytes: &[u8], magic: &[u8; 8]) -> (found: bool)
    requires
        bytes.len() >= 8,
    ensures
        found == (bytes@.take(8) == magic@),
{
    let mut index: usize = 0;
    while index < 8
        invariant
            index <= 8,
            bytes.len() >= 8,
            forall|i: int| 0 <= i < index ==> #[trigger] bytes@[i] == magic@[i],
        decreases 8 - index,
    {
        if bytes[index] != magic[index] {
            assert(bytes@.take(8)[index as int] != magic@[index as int]);
            return false;
        }
        index += 1;
    }
    assert(bytes@.take(8) =~= magic@);
    true
}

/// Reads consecutive 32-bit numbers.
pub fn read_u32_run(bytes: &[u8], at: usize, count: usize) -> (numbers: Vec<u32>)
    requires
        at + 4 * count <= bytes.len(),
    ensures
        numbers@ == le32_run(bytes@, at as int, count as nat),
{
    let mut numbers: Vec<u32> = Vec::new();
    let mut index: usize = 0;
    while index < count
        invariant
            index <= count,
            at + 4 * count <= bytes.len(),
            numbers.len() == index,
            forall|i: int|
                0 <= i < index ==> #[trigger] numbers@[i] == le32(bytes@, at + 4 * i) as u32,
        decreases count - index,
    {
        numbers.push(read_u32(bytes, at + 4 * index));
        index += 1;
    }
    assert(numbers@ =~= le32_run(bytes@, at as int, count as nat));
    numbers
}

} // verus!
