//! The header unit: the fixed 4-byte little-endian unsigned integer field
//! used uniformly throughout the format for total-size fields, item and
//! field counts, and offset-table entries.

use vstd::prelude::*;

verus! {

/// Width in bytes of the header unit.
pub const HEADER_UNIT: usize = 4;

/// The value of the 4-byte little-endian integer stored at `pos` in `b`.
pub open spec fn le32_at(b: Seq<u8>, pos: int) -> nat {
    b[pos] as nat + 0x100 * (b[pos + 1] as nat) + 0x1_0000 * (b[pos + 2] as nat) + 0x100_0000 * (
    b[pos + 3] as nat)
}

/// The 4 little-endian bytes of `v`.
pub open spec fn le_bytes(v: u32) -> Seq<u8> {
    seq![
        (v % 0x100) as u8,
        ((v / 0x100) % 0x100) as u8,
        ((v / 0x1_0000) % 0x100) as u8,
        ((v / 0x100_0000) % 0x100) as u8,
    ]
}

/// Every header-unit value fits in 32 bits.
pub proof fn lemma_le32_at_bound(b: Seq<u8>, pos: int)
    requires
        0 <= pos,
        pos + 4 <= b.len(),
    ensures
        le32_at(b, pos) < 0x1_0000_0000,
{
}

/// Writing a value and reading it back yields the value: the 4 bytes of
/// `le_bytes(v)` decode to `v`.
pub proof fn lemma_le_bytes_roundtrip(v: u32)
    ensures
        le_bytes(v).len() == 4,
        le32_at(le_bytes(v), 0) == v,
{
    assert(v % 0x100 + 0x100 * ((v / 0x100) % 0x100) + 0x1_0000 * ((v / 0x1_0000) % 0x100)
        + 0x100_0000 * ((v / 0x100_0000) % 0x100) == v) by (bit_vector);
}

/// Reading 4 bytes is local: only `b[pos..pos + 4]` matters.
pub proof fn lemma_le32_at_subrange(b: Seq<u8>, pos: int)
    requires
        0 <= pos,
        pos + 4 <= b.len(),
    ensures
        le32_at(b, pos) == le32_at(b.subrange(pos, pos + 4), 0),
{
}

/// A header unit embedded in a larger buffer reads back as the value
/// whose bytes were placed there.
pub proof fn lemma_le32_embedded(b: Seq<u8>, pos: int, v: u32)
    requires
        0 <= pos,
        pos + 4 <= b.len(),
        b.subrange(pos, pos + 4) == le_bytes(v),
    ensures
        le32_at(b, pos) == v,
{
    lemma_le32_at_subrange(b, pos);
    lemma_le_bytes_roundtrip(v);
}

/// Read the header unit stored at byte position `pos` of `b`.
pub fn read_unit(b: &[u8], pos: usize) -> (v: u32)
    requires
        pos + 4 <= b@.len(),
    ensures
        v as nat == le32_at(b@, pos as int),
{
    let b0 = b[pos] as u32;
    let b1 = b[pos + 1] as u32;
    let b2 = b[pos + 2] as u32;
    let b3 = b[pos + 3] as u32;
    b0 + 0x100 * b1 + 0x1_0000 * b2 + 0x100_0000 * b3
}

/// Append the 4 little-endian bytes of `v` to `out`.
pub fn push_unit(out: &mut Vec<u8>, v: u32)
    ensures
        final(out)@ == old(out)@ + le_bytes(v),
{
    out.push((v % 0x100) as u8);
    out.push(((v / 0x100) % 0x100) as u8);
    out.push(((v / 0x1_0000) % 0x100) as u8);
    out.push(((v / 0x100_0000) % 0x100) as u8);
    proof {
        assert(out@ =~= old(out)@ + le_bytes(v));
    }
}

} // verus!
