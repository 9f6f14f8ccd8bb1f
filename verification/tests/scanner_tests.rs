use game_slave::memory::MemRegion;
use game_slave::scanner::{addresses_fit, decode_value, encode_value, filter_scan, full_scan, search_buffer};
use game_slave::types::Candidate;

// ── encode_value ──────────────────────────────────────────────────────

#[test]
fn encode_u8() {
    assert_eq!(encode_value(0x42, 1), vec![0x42]);
}

#[test]
fn encode_u16_le() {
    assert_eq!(encode_value(0x0102, 2), vec![0x02, 0x01]);
}

#[test]
fn encode_u32_le() {
    assert_eq!(encode_value(0x01020304, 4), vec![0x04, 0x03, 0x02, 0x01]);
}

#[test]
fn encode_u64_le() {
    assert_eq!(
        encode_value(0x0102030405060708, 8),
        vec![0x08, 0x07, 0x06, 0x05, 0x04, 0x03, 0x02, 0x01]
    );
}

#[test]
fn encode_zero() {
    assert_eq!(encode_value(0, 4), vec![0, 0, 0, 0]);
}

#[test]
fn encode_truncates_to_width() {
    // 256 as u8 wraps to 0
    assert_eq!(encode_value(256, 1), vec![0x00]);
    // 0x10001 as u16 wraps to 1
    assert_eq!(encode_value(0x10001, 2), vec![0x01, 0x00]);
}

#[test]
fn encode_invalid_width_returns_empty() {
    assert_eq!(encode_value(42, 3), Vec::<u8>::new());
    assert_eq!(encode_value(42, 0), Vec::<u8>::new());
}

// ── decode_value ──────────────────────────────────────────────────────

#[test]
fn decode_u8() {
    assert_eq!(decode_value(&[0x42]), 0x42);
}

#[test]
fn decode_u16() {
    assert_eq!(decode_value(&[0x02, 0x01]), 0x0102);
}

#[test]
fn decode_u32() {
    assert_eq!(decode_value(&[0x04, 0x03, 0x02, 0x01]), 0x01020304);
}

#[test]
fn decode_u64() {
    assert_eq!(
        decode_value(&[0x08, 0x07, 0x06, 0x05, 0x04, 0x03, 0x02, 0x01]),
        0x0102030405060708
    );
}

#[test]
fn decode_empty_is_zero() {
    assert_eq!(decode_value(&[]), 0);
}

#[test]
fn decode_clamps_to_8_bytes() {
    // Extra bytes beyond 8 are ignored; value is same as first 8 bytes.
    let long = [0x01, 0x00, 0x00, 0x00, 0x00, 0x00, 0x00, 0x00, 0xFF];
    assert_eq!(decode_value(&long), 1);
}

// ── encode / decode round-trips ───────────────────────────────────────

#[test]
fn roundtrip_u8() {
    for v in [0u64, 1, 127, 255] {
        assert_eq!(decode_value(&encode_value(v, 1)), v);
    }
}

#[test]
fn roundtrip_u16() {
    for v in [0u64, 1, 1000, 65535] {
        assert_eq!(decode_value(&encode_value(v, 2)), v);
    }
}

#[test]
fn roundtrip_u32() {
    for v in [0u64, 1, 100, u32::MAX as u64] {
        assert_eq!(decode_value(&encode_value(v, 4)), v);
    }
}

#[test]
fn roundtrip_u64() {
    for v in [0u64, 1, u32::MAX as u64, u64::MAX] {
        assert_eq!(decode_value(&encode_value(v, 8)), v);
    }
}

// ── search_buffer ─────────────────────────────────────────────────────

#[test]
fn search_finds_match_at_start() {
    let data = [0x01, 0x02, 0x03, 0x04];
    assert_eq!(search_buffer(&data, &[0x01, 0x02], 0x1000), vec![0x1000]);
}

#[test]
fn search_finds_match_at_end() {
    let data = [0x00, 0x00, 0x01, 0x02];
    assert_eq!(search_buffer(&data, &[0x01, 0x02], 0x1000), vec![0x1002]);
}

#[test]
fn search_finds_multiple_matches() {
    let data = [0xAB, 0x00, 0xAB, 0x00, 0xAB];
    let addrs = search_buffer(&data, &[0xAB], 0x0);
    assert_eq!(addrs, vec![0, 2, 4]);
}

#[test]
fn search_no_match_returns_empty() {
    let data = [0x01, 0x02, 0x03];
    assert!(search_buffer(&data, &[0xFF], 0x0).is_empty());
}

#[test]
fn search_target_longer_than_data() {
    let data = [0x01, 0x02];
    assert!(search_buffer(&data, &[0x01, 0x02, 0x03], 0x0).is_empty());
}

#[test]
fn search_empty_target_returns_empty() {
    let data = [0x01, 0x02, 0x03];
    assert!(search_buffer(&data, &[], 0x0).is_empty());
}

#[test]
fn search_exact_size_match() {
    let data = [0x01, 0x02, 0x03];
    assert_eq!(search_buffer(&data, &[0x01, 0x02, 0x03], 0x5000), vec![0x5000]);
}

#[test]
fn search_exact_size_no_match() {
    let data = [0x01, 0x02, 0x04];
    assert!(search_buffer(&data, &[0x01, 0x02, 0x03], 0x0).is_empty());
}

#[test]
fn search_base_addr_is_applied() {
    let data = [0x00, 0xFF, 0x00];
    assert_eq!(search_buffer(&data, &[0xFF], 0xDEAD0000), vec![0xDEAD0001]);
}

#[test]
fn search_u32_value_in_buffer() {
    // Encode 1234 as u32 le, embed it in a buffer, check it's found.
    let target = encode_value(1234, 4);
    let mut data = vec![0xAAu8; 8];
    data[2..6].copy_from_slice(&target);
    let addrs = search_buffer(&data, &target, 0x2000);
    assert_eq!(addrs, vec![0x2002]);
}

// ── laws on concrete values ───────────────────────────────────────────

#[test]
fn decode_encode_reduces_to_width() {
    assert_eq!(decode_value(&encode_value(0x1_2345, 2)), 0x2345);
    assert_eq!(decode_value(&encode_value(0x1FF, 1)), 0xFF);
}

#[test]
fn encode_decode_gives_bytes_back() {
    for bytes in [vec![0x9Au8], vec![0x34, 0x12], vec![1, 2, 3, 4], vec![8, 7, 6, 5, 4, 3, 2, 0xFF]] {
        let width = bytes.len() as u8;
        assert_eq!(encode_value(decode_value(&bytes), width), bytes);
    }
}

#[test]
fn search_overlapping_matches_are_all_reported() {
    let data = [0xAA, 0xAA, 0xAA];
    assert_eq!(search_buffer(&data, &[0xAA, 0xAA], 0x10), vec![0x10, 0x11]);
}

fn region(base: u64, size: usize) -> MemRegion {
    MemRegion { base, size }
}

#[test]
fn full_scan_collects_matches_of_every_readable_region() {
    let target = encode_value(7, 2);
    let regions = vec![region(0x1000, 4), region(0x2000, 4), region(0x3000, 4)];
    let contents = vec![Some(vec![7, 0, 7, 0]), None, Some(vec![0, 7, 0, 9])];
    let found = full_scan(&regions, &contents, &target);
    let addrs: Vec<u64> = found.iter().map(|c| c.address).collect();
    assert_eq!(addrs, vec![0x1000, 0x1002, 0x3001]);
    for c in &found {
        assert_eq!(c.width, 2);
        assert_eq!(c.value, target);
        assert!(!c.pinned);
    }
}

#[test]
fn full_scan_of_joined_regions_is_joined_scans() {
    let target = vec![5u8];
    let r1 = vec![region(0x10, 3)];
    let c1 = vec![Some(vec![5, 1, 5])];
    let r2 = vec![region(0x40, 2)];
    let c2 = vec![Some(vec![5, 5])];
    let mut joined = full_scan(&r1, &c1, &target);
    joined.extend(full_scan(&r2, &c2, &target));
    let all_r = vec![region(0x10, 3), region(0x40, 2)];
    let all_c = vec![Some(vec![5, 1, 5]), Some(vec![5, 5])];
    let at_once = full_scan(&all_r, &all_c, &target);
    let a: Vec<u64> = joined.iter().map(|c| c.address).collect();
    let b: Vec<u64> = at_once.iter().map(|c| c.address).collect();
    assert_eq!(a, b);
    assert_eq!(b, vec![0x10, 0x12, 0x40, 0x41]);
}

fn cand(address: u64, value: Vec<u8>, pinned: bool) -> Candidate {
    Candidate { address, width: value.len() as u8, value, pinned }
}

#[test]
fn filter_scan_keeps_only_candidates_now_holding_target() {
    let cands = vec![cand(0x100, vec![1, 0], false), cand(0x200, vec![1, 0], true), cand(0x300, vec![1, 0], false)];
    let target = encode_value(2, 2);
    let reads = vec![Some(vec![2, 0]), Some(vec![2, 0]), Some(vec![3, 0])];
    let kept = filter_scan(&cands, &reads, &target);
    assert_eq!(kept.len(), 2);
    assert_eq!(kept[0].address, 0x100);
    assert!(!kept[0].pinned);
    assert_eq!(kept[1].address, 0x200);
    assert!(kept[1].pinned);
    assert_eq!(kept[1].value, vec![2, 0]);
    assert_eq!(kept[1].width, 2);
}

#[test]
fn filter_scan_drops_failed_and_short_reads() {
    let cands = vec![cand(0x100, vec![4, 0, 0, 0], false), cand(0x104, vec![4, 0, 0, 0], false)];
    let target = encode_value(4, 4);
    let reads = vec![None, Some(vec![4, 0])];
    assert!(filter_scan(&cands, &reads, &target).is_empty());
}

#[test]
fn rescan_over_unchanged_memory_keeps_every_candidate() {
    let target = encode_value(77, 1);
    let regions = vec![region(0x500, 4)];
    let contents = vec![Some(vec![77, 0, 77, 77])];
    let found = full_scan(&regions, &contents, &target);
    let reads: Vec<Option<Vec<u8>>> = found.iter().map(|_| Some(target.clone())).collect();
    let kept = filter_scan(&found, &reads, &target);
    let a: Vec<(u64, u8, Vec<u8>, bool)> = found.iter().map(|c| (c.address, c.width, c.value.clone(), c.pinned)).collect();
    let b: Vec<(u64, u8, Vec<u8>, bool)> = kept.iter().map(|c| (c.address, c.width, c.value.clone(), c.pinned)).collect();
    assert_eq!(a, b);
    assert_eq!(a.len(), 3);
}

#[test]
fn addresses_fit_only_when_no_match_overflows() {

    assert!(addresses_fit(&[1, 2, 3], &[2], u64::MAX - 2));
    assert!(!addresses_fit(&[1, 2, 3], &[3], u64::MAX - 1));
    assert!(addresses_fit(&[1, 2, 9], &[3], u64::MAX - 1));
    assert!(addresses_fit(&[1, 2, 3], &[], u64::MAX));
}

#[test]
fn rescan_twice_over_same_memory_is_rescan_once() {
    // Memory by address: 0x100 holds 2, 0x200 holds 3, 0x300 cannot be read.
    let read_at = |a: u64| -> Option<Vec<u8>> {
        match a {
            0x100 => Some(vec![2, 0]),
            0x200 => Some(vec![3, 0]),
            _ => None,
        }
    };
    let cands = vec![cand(0x100, vec![1, 0], false), cand(0x200, vec![1, 0], true), cand(0x300, vec![1, 0], false)];
    let target = encode_value(2, 2);
    let reads: Vec<Option<Vec<u8>>> = cands.iter().map(|c| read_at(c.address)).collect();
    let once = filter_scan(&cands, &reads, &target);
    let reads_again: Vec<Option<Vec<u8>>> = once.iter().map(|c| read_at(c.address)).collect();
    let twice = filter_scan(&once, &reads_again, &target);
    let a: Vec<(u64, Vec<u8>)> = once.iter().map(|c| (c.address, c.value.clone())).collect();
    let b: Vec<(u64, Vec<u8>)> = twice.iter().map(|c| (c.address, c.value.clone())).collect();
    assert_eq!(a, vec![(0x100, vec![2, 0])]);
    assert_eq!(a, b);
}
