use game_slave::app::{status_kind, App, Page, StatusKind};
use game_slave::types::{Candidate, WorkerCmd, WorkerResult};

fn attached_app() -> App {
    let mut app = App::new();
    app.attach(42, "game.exe");
    app.apply_result(WorkerResult::Attached(42));
    app
}

#[test]
fn attach_resets_and_reports() {
    let mut app = App::new();
    let cmd = app.attach(1234, "game.exe");
    assert!(matches!(cmd, WorkerCmd::Attach(1234)));
    assert_eq!(app.scan_status, "Attaching to game.exe (PID 1234)...");
    assert_eq!(app.attached_pid, None);
    app.apply_result(WorkerResult::Attached(1234));
    assert_eq!(app.attached_pid, Some(1234));
    assert_eq!(app.page, Page::Scan);
    assert_eq!(app.scan_status, "Attached to PID 1234.");
}

#[test]
fn scan_encodes_the_typed_value() {
    let mut app = attached_app();
    app.scan_value_str = " 258 ".to_string();
    app.scan_width = 2;
    match app.do_scan(false) {
        Some(WorkerCmd::Scan(t)) => assert_eq!(t, vec![2, 1]),
        _ => panic!("expected a scan"),
    }
    assert!(app.scanning);
    assert_eq!(app.scan_status, "Scanning...");
    match app.do_scan(true) {
        Some(WorkerCmd::Rescan(t)) => assert_eq!(t, vec![2, 1]),
        _ => panic!("expected a re-scan"),
    }
    assert_eq!(app.scan_status, "Re-scanning...");
}

#[test]
fn scan_rejects_bad_input() {
    let mut app = attached_app();
    app.scan_value_str = "-3".to_string();
    assert!(app.do_scan(false).is_none());
    assert_eq!(app.scan_status, "Invalid value \u{2014} enter a non-negative integer.");
    app.scan_value_str = "3".to_string();
    app.scan_width = 3;
    assert!(app.do_scan(false).is_none());
    assert_eq!(app.scan_status, "Unsupported width.");
}

#[test]
fn results_update_the_status() {
    let mut app = attached_app();
    app.scanning = true;
    let c = Candidate { address: 0x10, width: 1, value: vec![5], pinned: false };
    app.apply_result(WorkerResult::ScanComplete(vec![c.clone(), c]));
    assert!(!app.scanning);
    assert_eq!(app.candidates.len(), 2);
    assert_eq!(app.scan_status, "2 candidates found.");
    app.apply_result(WorkerResult::ScanError("boom".to_string()));
    assert_eq!(app.scan_status, "Scan error: boom");
    app.apply_result(WorkerResult::AttachFailed("denied".to_string()));
    assert_eq!(app.scan_status, "Attach failed: denied");
    app.apply_result(WorkerResult::WriteOk);
    assert_eq!(app.write_status, "Write successful.");
    app.apply_result(WorkerResult::WriteErr("nope".to_string()));
    assert_eq!(app.write_status, "Write failed: nope");
}

#[test]
fn write_reports_value_and_address() {
    let mut app = attached_app();
    app.write_value_str = "300".to_string();
    match app.do_write(0xABC, 2) {
        Some(WorkerCmd::Write { address, value }) => {
            assert_eq!(address, 0xABC);
            assert_eq!(value, vec![0x2C, 0x01]);
        }
        _ => panic!("expected a write"),
    }
    assert_eq!(app.write_status, "Writing 300 to 0x0000000000000abc...");
    app.write_value_str = "x".to_string();
    assert!(app.do_write(0xABC, 2).is_none());
    assert_eq!(app.write_status, "Invalid value.");
}

#[test]
fn pins_get_fresh_ids_and_mark_candidates() {
    let mut app = attached_app();
    app.candidates = vec![
        Candidate { address: 0x10, width: 4, value: vec![1, 0, 0, 0], pinned: false },
        Candidate { address: 0x20, width: 4, value: vec![2, 0, 0, 0], pinned: false },
    ];
    let cmd = app.pin_candidate(1).unwrap();
    match cmd {
        WorkerCmd::PinAdd(p) => {
            assert_eq!(p.id, 1);
            assert_eq!(p.address, 0x20);
            assert_eq!(p.value, vec![2, 0, 0, 0]);
            assert!(p.enabled);
        }
        _ => panic!("expected a pin"),
    }
    assert!(app.candidates[1].pinned);
    assert!(!app.candidates[0].pinned);
    app.write_value_str = "9".to_string();
    match app.pin_candidate(0).unwrap() {
        WorkerCmd::PinAdd(p) => {
            assert_eq!(p.id, 2);
            assert_eq!(p.value, vec![9, 0, 0, 0]);
        }
        _ => panic!("expected a pin"),
    }
    assert!(app.pin_candidate(5).is_none());
    assert_eq!(app.pins.len(), 2);
    assert!(matches!(app.toggle_pin(1), WorkerCmd::PinToggle(1)));
    assert!(!app.pins[0].enabled);
    assert!(matches!(app.remove_pin(1), WorkerCmd::PinRemove(1)));
    assert_eq!(app.pins.len(), 1);
    assert_eq!(app.pins[0].id, 2);
}

#[test]
fn scan_buttons_follow_state() {
    let mut app = App::new();
    app.scan_value_str = "5".to_string();
    assert!(!app.can_scan());
    app = attached_app();
    app.scan_value_str = "5".to_string();
    assert!(app.can_scan());
    assert!(!app.can_rescan());
    app.candidates.push(Candidate { address: 1, width: 1, value: vec![5], pinned: false });
    assert!(app.can_rescan());
    app.scanning = true;
    assert!(!app.can_scan());
    assert!(app.needs_repaint());
}

#[test]
fn status_kinds() {
    assert_eq!(status_kind("Attach failed: x"), StatusKind::Error);
    assert_eq!(status_kind("Invalid value."), StatusKind::Error);
    assert_eq!(status_kind("Write successful."), StatusKind::Success);
    assert_eq!(status_kind("Attached to PID 3."), StatusKind::Success);
    assert_eq!(status_kind("Scanning..."), StatusKind::Pending);
    assert_eq!(status_kind("Attaching to x (PID 1)..."), StatusKind::Pending);
    assert_eq!(status_kind("3 candidates found."), StatusKind::Neutral);
}

#[test]
fn display_limit() {
    let mut app = App::new();
    for i in 0..2005u64 {
        app.candidates.push(Candidate { address: i, width: 1, value: vec![0], pinned: false });
    }
    assert_eq!(app.shown_candidates(), 2000);
    assert_eq!(app.hidden_candidates(), 5);
}
