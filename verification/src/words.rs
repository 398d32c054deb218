//! Big-endian 32-bit words: decoding them from a byte buffer and masking the
//! relocation-sensitive bit fields of instruction words so that code from two
//! builds compares equal despite differing embedded addresses.

use vstd::prelude::*;

verus! {

/// A failure while interpreting a raw image buffer.
#[derive(Clone, Copy, Debug, PartialEq, Eq, Structural)]
pub enum Error {
    /// The buffer violates the container format (a misaligned offset,
    /// address or size, or a malformed section table).
    Invalid,
    /// A read would fall outside the buffer.
    Oob,
}

/// The big-endian 32-bit word stored at byte offset `o` of `d`.
pub open spec fn be_word(d: Seq<u8>, o: int) -> u32
    recommends
        0 <= o,
        o + 4 <= d.len(),
{
    (((d[o] as int) * 0x1000000) + ((d[o + 1] as int) * 0x10000) + ((d[o + 2] as int) * 0x100)
        + (d[o + 3] as int)) as u32
}

/// Reads the big-endian 32-bit word at byte offset `offset`, or reports that
/// the four bytes are not all inside the buffer.
pub fn read_u32(data: &[u8], offset: u32) -> (r: Result<u32, Error>)
    ensures
        r is Ok <==> offset + 4 <= data@.len(),
        r is Ok ==> r->Ok_0 == be_word(data@, offset as int),
        r is Err ==> r == Err::<u32, Error>(Error::Oob),
{
    let o = offset as usize;
    if o < data.len() && data.len() - o >= 4 {
        let w = ((data[o] as u32) * 0x1000000) + ((data[o + 1] as u32) * 0x10000) + ((data[o
            + 2] as u32) * 0x100) + (data[o + 3] as u32);
        Ok(w)
    } else {
        Err(Error::Oob)
    }
}

/// The opcode classes (top six bits) whose low 16 bits hold an immediate
/// operand or displacement that may differ between builds of the same code:
/// register-immediate arithmetic, the byte/half/word/float loads and stores,
/// and immediate logical-or.
pub open spec fn is_masked_opcode(op: u32) -> bool {
    op == 0x88000000 || op == 0x8c000000 || op == 0xc8000000 || op == 0xcc000000 || op
        == 0xc0000000 || op == 0xc4000000 || op == 0xa8000000 || op == 0xac000000 || op
        == 0xa0000000 || op == 0xa4000000 || op == 0x80000000 || op == 0x84000000 || op
        == 0x60000000 || op == 0x98000000 || op == 0x9c000000 || op == 0xd8000000 || op
        == 0xdc000000 || op == 0xd0000000 || op == 0xd4000000 || op == 0xb0000000 || op
        == 0xb4000000 || op == 0x90000000 || op == 0x94000000 || op == 0x38000000 || op
        == 0x30000000 || op == 0x34000000 || op == 0x3c000000
}

/// The unconditional-branch opcode class, whose word keeps only the top six
/// bits and the link flag (bit 0) after masking.
pub open spec fn is_branch_opcode(op: u32) -> bool {
    op == 0x48000000
}

/// Full normalization, applied to code words of a main image: immediate
/// fields are zeroed, branch displacements are zeroed, everything else is
/// left as it is.
pub open spec fn spec_normalize_full(w: u32) -> u32 {
    let op = w & 0xfc000000;
    if is_masked_opcode(op) {
        w & 0xffff0000
    } else if is_branch_opcode(op) {
        w & 0xfc000001
    } else {
        w
    }
}

/// Branch-only normalization, applied to code words of a relocatable module:
/// only unconditional-branch words are masked.
pub open spec fn spec_normalize_branch(w: u32) -> u32 {
    if is_branch_opcode(w & 0xfc000000) {
        w & 0xfc000001
    } else {
        w
    }
}

/// Applies the full (main-image) normalization to one code word.
pub fn normalize_full(w: u32) -> (r: u32)
    ensures
        r == spec_normalize_full(w),
{
    match w & 0xfc000000 {
        0x88000000 | 0x8c000000 | 0xc8000000 | 0xcc000000 | 0xc0000000 | 0xc4000000 | 0xa8000000
            | 0xac000000 | 0xa0000000 | 0xa4000000 | 0x80000000 | 0x84000000 | 0x60000000
            | 0x98000000 | 0x9c000000 | 0xd8000000 | 0xdc000000 | 0xd0000000 | 0xd4000000
            | 0xb0000000 | 0xb4000000 | 0x90000000 | 0x94000000 | 0x38000000 | 0x30000000
            | 0x34000000 | 0x3c000000 => w & 0xffff0000,
        0x48000000 => w & 0xfc000001,
        _ => w,
    }
}

/// Applies the branch-only (relocatable-module) normalization to one word.
pub fn normalize_branch(w: u32) -> (r: u32)
    ensures
        r == spec_normalize_branch(w),
{
    if w & 0xfc000000 == 0x48000000 {
        w & 0xfc000001
    } else {
        w
    }
}

/// Normalizing an already-normalized word changes nothing: both masks keep
/// the opcode bits, so a masked word falls into the same opcode class and is
/// masked the same way again.
pub proof fn lemma_normalize_full_idempotent(w: u32)
    ensures
        spec_normalize_full(spec_normalize_full(w)) == spec_normalize_full(w),
{
    assert((w & 0xffff0000) & 0xfc000000 == w & 0xfc000000) by (bit_vector);
    assert((w & 0xffff0000) & 0xffff0000 == w & 0xffff0000) by (bit_vector);
    assert((w & 0xfc000001) & 0xfc000000 == w & 0xfc000000) by (bit_vector);
    assert((w & 0xfc000001) & 0xfc000001 == w & 0xfc000001) by (bit_vector);
}

/// Branch-only normalization is idempotent for the same reason.
pub proof fn lemma_normalize_branch_idempotent(w: u32)
    ensures
        spec_normalize_branch(spec_normalize_branch(w)) == spec_normalize_branch(w),
{
    assert((w & 0xfc000001) & 0xfc000000 == w & 0xfc000000) by (bit_vector);
    assert((w & 0xfc000001) & 0xfc000001 == w & 0xfc000001) by (bit_vector);
}

/// Two words of an immediate-operand opcode class that differ only in their
/// low 16 bits normalize to the same word, so they no longer break a match;
/// two distinct words of a class that neither masking touches stay distinct.
pub proof fn lemma_immediate_masking(w1: u32, w2: u32)
    ensures
        w1 & 0xffff0000 == w2 & 0xffff0000 && is_masked_opcode(w1 & 0xfc000000)
            ==> spec_normalize_full(w1) == spec_normalize_full(w2),
        w1 != w2 && !is_masked_opcode(w1 & 0xfc000000) && !is_branch_opcode(w1 & 0xfc000000)
            && !is_masked_opcode(w2 & 0xfc000000) && !is_branch_opcode(w2 & 0xfc000000)
            ==> spec_normalize_full(w1) != spec_normalize_full(w2),
{
    assert(w1 & 0xffff0000 == w2 & 0xffff0000 ==> w1 & 0xfc000000 == w2 & 0xfc000000)
        by (bit_vector);
}

} // verus!
