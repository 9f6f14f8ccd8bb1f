use game_slave::memory::{is_readable, read_result, RegionInfo, RegionWalk, MEM_COMMIT, PAGE_GUARD, PAGE_NOACCESS};

fn info(base: usize, size: usize, state: u32, protect: u32) -> RegionInfo {
    RegionInfo { base_address: base, region_size: size, state, protect }
}

#[test]
fn readable_needs_commit_and_access() {
    assert!(is_readable(&info(0, 0x1000, MEM_COMMIT, 0x04)));
    assert!(!is_readable(&info(0, 0x1000, 0x2000, 0x04)));
    assert!(!is_readable(&info(0, 0x1000, MEM_COMMIT, 0)));
    assert!(!is_readable(&info(0, 0x1000, MEM_COMMIT, PAGE_NOACCESS)));
    assert!(!is_readable(&info(0, 0x1000, MEM_COMMIT, 0x04 | PAGE_GUARD)));
}

#[test]
fn walk_records_readable_regions_and_moves_on() {
    let mut w = RegionWalk::new();
    assert_eq!(w.address, 0);
    w.step(Some(info(0, 0x1000, 0x10000, 0x01)));
    assert_eq!(w.address, 0x1000);
    assert!(w.regions.is_empty());
    w.step(Some(info(0x1000, 0x2000, MEM_COMMIT, 0x04)));
    assert_eq!(w.address, 0x3000);
    assert_eq!(w.regions.len(), 1);
    assert_eq!(w.regions[0].base, 0x1000);
    assert_eq!(w.regions[0].size, 0x2000);
    w.step(None);
    assert!(w.done);
}

#[test]
fn walk_stops_when_it_would_not_advance() {
    let mut w = RegionWalk::new();
    w.step(Some(info(0, 0x1000, MEM_COMMIT, 0x04)));
    w.step(Some(info(0, 0x1000, MEM_COMMIT, 0x04)));
    assert!(w.done);
    assert_eq!(w.regions.len(), 2);
}

#[test]
fn read_result_keeps_partial_reads_and_rejects_empty_reads() {
    assert_eq!(read_result(vec![1, 2, 3, 4], 2), Some(vec![1, 2]));
    assert_eq!(read_result(vec![1, 2, 3, 4], 4), Some(vec![1, 2, 3, 4]));
    assert_eq!(read_result(vec![1, 2, 3, 4], 0), None);
}
