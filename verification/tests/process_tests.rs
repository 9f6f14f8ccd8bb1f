use game_slave::process::{enumerate_processes, exe_name, sort_processes, visible_processes, ProcessInfo, RawProcessEntry};

fn field(name: &str) -> Vec<u16> {
    let mut f: Vec<u16> = name.encode_utf16().collect();
    f.resize(260, 0);
    f
}

fn proc_info(pid: u32, name: &str) -> ProcessInfo {
    ProcessInfo { pid, name: name.to_string() }
}

#[test]
fn exe_name_stops_at_first_zero() {
    assert_eq!(exe_name(&field("notepad.exe")), "notepad.exe");
    let full: Vec<u16> = "abc".encode_utf16().collect();
    assert_eq!(exe_name(&full), "abc");
    assert_eq!(exe_name(&[0xD800, 0x41, 0]), "\u{FFFD}A");
}

#[test]
fn processes_are_sorted_ignoring_case_and_stably() {
    let entries = vec![
        RawProcessEntry { pid: 3, exe_file: field("zeta.exe") },
        RawProcessEntry { pid: 1, exe_file: field("Alpha.exe") },
        RawProcessEntry { pid: 2, exe_file: field("beta.exe") },
        RawProcessEntry { pid: 4, exe_file: field("ALPHA.exe") },
    ];
    let list = enumerate_processes(&entries);
    let got: Vec<(u32, String)> = list.iter().map(|p| (p.pid, p.name.clone())).collect();
    assert_eq!(
        got,
        vec![
            (1, "Alpha.exe".to_string()),
            (4, "ALPHA.exe".to_string()),
            (2, "beta.exe".to_string()),
            (3, "zeta.exe".to_string()),
        ]
    );
}

#[test]
fn sorting_twice_is_sorting_once() {
    let v = vec![proc_info(1, "b"), proc_info(2, "A"), proc_info(3, "a"), proc_info(4, "C")];
    let once = sort_processes(&v);
    let twice = sort_processes(&once);
    let a: Vec<u32> = once.iter().map(|p| p.pid).collect();
    let b: Vec<u32> = twice.iter().map(|p| p.pid).collect();
    assert_eq!(a, vec![2, 3, 1, 4]);
    assert_eq!(a, b);
}

#[test]
fn filter_matches_lower_cased_substring() {
    let v = vec![proc_info(1, "Notepad.exe"), proc_info(2, "explorer.exe"), proc_info(3, "NOTES")];
    let shown: Vec<u32> = visible_processes(&v, "NOTE").iter().map(|p| p.pid).collect();
    assert_eq!(shown, vec![1, 3]);
    assert_eq!(visible_processes(&v, "").len(), 3);
    assert!(visible_processes(&v, "xyz").is_empty());
}

#[test]
fn exe_name_decodes_surrogate_pairs_and_replaces_lone_surrogates() {
    // U+1F600 is D83D DE00; a lone low surrogate and a high one before a
    // non-surrogate each become U+FFFD.
    assert_eq!(exe_name(&[0xD83D, 0xDE00, 0x41, 0]), "\u{1F600}A");
    assert_eq!(exe_name(&[0xDC00, 0x42]), "\u{FFFD}B");
    assert_eq!(exe_name(&[0xD83D, 0x43]), "\u{FFFD}C");
    assert_eq!(exe_name(&[0x41, 0xD83D]), "A\u{FFFD}");
}
