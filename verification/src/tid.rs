//! Postgres ctid <-> `u64` packing.
//!
//! A PostgreSQL heap tuple is addressed by an `ItemPointer` (its `ctid`): a
//! 32-bit block number plus a 16-bit item offset within that block. An index
//! segment addresses every vector by a stable `u64`.
//!
//! Packing `(block, offset)` into the low 48 bits of a `u64` lets a vector id
//! *be* a heap tuple pointer, so a search result maps straight back to a table
//! row with `WHERE ctid = '(block,offset)'`.
//!
//! ```text
//! u64 layout:  [ 16 unused bits | 32-bit block number | 16-bit offset ]
//!               63            48 47                   16 15           0
//! ```
use vstd::prelude::*;

verus! {

/// The id of the heap pointer `(block, offset)`: the block number counts
/// steps of 2^16, the offset counts units.
pub open spec fn packed(block: u32, offset: u16) -> int {
    block * 0x1_0000 + offset
}

/// The block number that an id carries, in bits 16 to 47.
pub open spec fn block_of(v: u64) -> int {
    (v / 0x1_0000) as int % 0x1_0000_0000
}

/// The item offset that an id carries, in bits 0 to 15.
pub open spec fn offset_of(v: u64) -> int {
    v as int % 0x1_0000
}

/// Pack a `(block, offset)` heap pointer into a `u64`.
pub fn pack(block: u32, offset: u16) -> (v: u64)
    ensures
        v == packed(block, offset),
{
    let b: u64 = block as u64;
    let o: u64 = offset as u64;
    assert((b << 16) | o == b * 0x1_0000 + o) by (bit_vector)
        requires
            b <= 0xFFFF_FFFF,
            o <= 0xFFFF,
    ;
    (b << 16) | o
}

/// Inverse of [`pack`]: recover `(block, offset)` from a packed `u64`.
///
/// Only the low 48 bits are interpreted; the top 16 bits are ignored.
pub fn unpack(v: u64) -> (p: (u32, u16))
    ensures
        p.0 == block_of(v),
        p.1 == offset_of(v),
{
    assert((v >> 16) & 0xFFFF_FFFF == (v / 0x1_0000) % 0x1_0000_0000) by (bit_vector);
    assert(v & 0xFFFF == v % 0x1_0000) by (bit_vector);
    let block: u32 = ((v >> 16) & 0xFFFF_FFFF) as u32;
    let offset: u16 = (v & 0xFFFF) as u16;
    (block, offset)
}

/// Unpacking undoes packing, for every heap pointer.
pub proof fn law_unpack_inverts_pack(block: u32, offset: u16, v: u64)
    requires
        v == packed(block, offset),
    ensures
        block_of(v) == block,
        offset_of(v) == offset,
{
}

/// Packing undoes unpacking on every id whose top 16 bits are clear.
pub proof fn law_pack_inverts_unpack(v: u64, block: u32, offset: u16)
    requires
        v < 0x1_0000_0000_0000,
        block == block_of(v),
        offset == offset_of(v),
    ensures
        packed(block, offset) == v,
{
}

/// Distinct heap pointers never share an id.
pub proof fn law_pack_is_injective(block1: u32, offset1: u16, block2: u32, offset2: u16)
    requires
        packed(block1, offset1) == packed(block2, offset2),
    ensures
        block1 == block2,
        offset1 == offset2,
{
}

/// An id fits in the low 48 bits, and the next block's id lies exactly 2^16
/// further on.
pub proof fn law_pack_layout(block: u32, offset: u16)
    ensures
        0 <= packed(block, offset) < 0x1_0000_0000_0000,
        block < u32::MAX ==> packed((block + 1) as u32, offset) == packed(block, offset) + 0x1_0000,
{
}

/// The top 16 bits of an id carry nothing: whatever tag they hold, the same
/// heap pointer comes back.
pub proof fn law_high_bits_are_ignored(v: u64, tag: u64)
    requires
        v < 0x1_0000_0000_0000,
        tag <= 0xFFFF,
    ensures
        block_of(v | (tag << 48)) == block_of(v),
        offset_of(v | (tag << 48)) == offset_of(v),
{
    let w: u64 = v | (tag << 48);
    assert((w / 0x1_0000) % 0x1_0000_0000 == (v / 0x1_0000) % 0x1_0000_0000 && w % 0x1_0000 == v
        % 0x1_0000) by (bit_vector)
        requires
            v < 0x1_0000_0000_0000,
            tag <= 0xFFFF,
            w == v | (tag << 48),
    ;
}

/// The block number stands in bits 16 to 47 of an id and the offset in the low 16, with
/// nothing above.
pub proof fn law_pack_sets_the_fields(block: u32, offset: u16)
    ensures
        packed(block, offset) == (((block as u64) << 16) | (offset as u64)),
{
    let (b, o) = (block as u64, offset as u64);
    assert((b << 16) | o == b * 0x1_0000 + o) by (bit_vector)
        requires
            b <= 0xFFFF_FFFF,
            o <= 0xFFFF,
    ;
}

/// Unpacking reads those two fields and nothing else.
pub proof fn law_unpack_reads_the_fields(v: u64)
    ensures
        block_of(v) == ((v >> 16) & 0xFFFF_FFFF),
        offset_of(v) == v & 0xFFFF,
{
    assert((v >> 16) & 0xFFFF_FFFF == (v / 0x1_0000) % 0x1_0000_0000) by (bit_vector);
    assert(v & 0xFFFF == v % 0x1_0000) by (bit_vector);
}

} // verus!
