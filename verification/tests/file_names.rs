use turbovec_pg_engine::names::{
    active_manifest, hot_file_name, manifest_file_name, manifest_generation, segment_file_name,
    superseded,
};

#[test]
fn names_are_padded_to_eight_digits() {
    assert_eq!(segment_file_name(0), "seg-00000000.tvim");
    assert_eq!(segment_file_name(12), "seg-00000012.tvim");
    assert_eq!(hot_file_name(1), "hot-00000001.tvim");
    assert_eq!(manifest_file_name(2), "MANIFEST-00000002");
    assert_eq!(manifest_file_name(123_456_789), "MANIFEST-123456789");
    assert_eq!(hot_file_name(u64::MAX), "hot-18446744073709551615.tvim");
}

#[test]
fn a_manifest_name_carries_its_generation() {
    for g in [0u64, 1, 99_999_999, 100_000_000, u64::MAX] {
        assert_eq!(manifest_generation(&manifest_file_name(g)), g);
    }
}

#[test]
fn other_names_carry_generation_zero() {
    assert_eq!(manifest_generation("CURRENT"), 0);
    assert_eq!(manifest_generation("MANIFEST-"), 0);
    assert_eq!(manifest_generation("MANIFEST-12x"), 0);
    assert_eq!(manifest_generation("MANIFEST--1"), 0);
    assert_eq!(manifest_generation("xMANIFEST-7"), 0);
    // One above the largest 64-bit number.
    assert_eq!(manifest_generation("MANIFEST-18446744073709551616"), 0);
    // A leading plus sign is part of a number.
    assert_eq!(manifest_generation("MANIFEST-+7"), 7);
    assert_eq!(manifest_generation("MANIFEST-+"), 0);
}

#[test]
fn only_older_generations_are_superseded() {
    assert!(superseded("hot-00000001.tvim", 2));
    assert!(superseded("MANIFEST-00000001", 2));
    assert!(!superseded("hot-00000002.tvim", 2));
    assert!(!superseded("MANIFEST-00000002", 2));
    assert!(!superseded("hot-00000003.tvim", 2));
    assert!(!superseded("seg-00000000.tvim", 2));
    assert!(!superseded("CURRENT", 2));
    assert!(!superseded("hot-00000001.tvim.tmp", 2));
    assert!(!superseded("hot-00000001", 2));
    assert!(!superseded("MANIFEST-00000001.tmp", 2));
    assert!(!superseded("hot-.tvim", 2));
}

#[test]
fn the_pointer_is_trimmed() {
    assert_eq!(active_manifest("MANIFEST-00000003"), "MANIFEST-00000003");
    assert_eq!(active_manifest(" \tMANIFEST-00000003\r\n"), "MANIFEST-00000003");
    assert_eq!(active_manifest("\u{2003}a b\u{a0}"), "a b");
    assert_eq!(active_manifest("  \n "), "");
}

#[test]
fn no_two_files_share_a_name() {
    let mut names = vec!["CURRENT".to_string()];
    for n in [0u64, 1, 9, 10, 99_999_999, 100_000_000] {
        names.push(segment_file_name(n as usize));
        names.push(hot_file_name(n));
        names.push(manifest_file_name(n));
    }
    let count = names.len();
    names.sort();
    names.dedup();
    assert_eq!(names.len(), count);
}
