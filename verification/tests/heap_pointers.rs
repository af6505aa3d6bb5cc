use turbovec_pg_engine::tid::{pack, unpack};

#[test]
fn round_trips_boundary_values() {
    // (block, offset) pairs spanning the full range of each field, including the
    // values Postgres actually uses (offsets start at 1).
    let cases = [
        (0u32, 0u16),
        (0, 1),
        (1, 1),
        (42, 7),
        (u32::MAX, u16::MAX),
        (u32::MAX, 0),
        (0, u16::MAX),
        (123_456, 200),
        (1 << 31, 1),
    ];
    for (block, offset) in cases {
        let packed = pack(block, offset);
        assert_eq!(
            unpack(packed),
            (block, offset),
            "round-trip failed for block={block}, offset={offset}",
        );
    }
}

#[test]
fn distinct_pointers_pack_to_distinct_ids() {
    // Adjacent offsets and adjacent blocks must never collide: a collision would
    // alias two heap tuples onto one vector id.
    assert_ne!(pack(0, 1), pack(0, 2));
    assert_ne!(pack(0, 1), pack(1, 0));
    assert_ne!(pack(1, 0), pack(0, 1 << 0));
    // The block field sits above the 16-bit offset field, so bumping the block by
    // one moves the id by exactly 2^16.
    assert_eq!(pack(5, 0) + (1 << 16), pack(6, 0));
}

#[test]
fn high_bits_are_ignored_on_unpack() {
    // Set the unused top 16 bits: unpack still recovers the pointer.
    let packed = pack(777, 9) | (0xABCDu64 << 48);
    assert_eq!(unpack(packed), (777, 9));
}

#[test]
fn pack_has_exact_values() {
    assert_eq!(pack(0, 0), 0);
    assert_eq!(pack(1, 2), 65_538);
    assert_eq!(pack(u32::MAX, u16::MAX), 0xFFFF_FFFF_FFFF);
}

#[test]
fn pack_inverts_unpack_below_48_bits() {
    for id in [0u64, 1, 65_535, 65_536, 0x1234_5678_9ABC, 0xFFFF_FFFF_FFFF] {
        let (block, offset) = unpack(id);
        assert_eq!(pack(block, offset), id);
    }
}
