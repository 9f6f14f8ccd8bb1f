use game_slave::types::{Pin, WorkerCmd, WorkerResult};
use game_slave::worker::{WorkerAction, WorkerState};

fn pin(id: u64, enabled: bool) -> Pin {
    Pin { id, address: 0x1000 + id, width: 4, value: vec![id as u8; 4], enabled }
}

#[test]
fn attach_fails_on_non_windows() {
    // The loop that drives the worker answers an open request on a system
    // without the Win32 API with this failure.
    let mut w = WorkerState::new();
    let actions = w.handle_cmd(WorkerCmd::Attach(1234));
    assert_eq!(actions.len(), 1);
    assert!(matches!(actions[0], WorkerAction::OpenProcess(1234)));
    let reply = w.attach_finished(1234, Err("Not running on Windows".to_string()));
    assert!(matches!(reply, WorkerResult::AttachFailed(_)));
    assert!(w.handle_raw.is_none());
}

#[test]
fn scan_without_attach_returns_error() {
    let mut w = WorkerState::new();
    let actions = w.handle_cmd(WorkerCmd::Scan(vec![0x01, 0x02, 0x03, 0x04]));
    assert_eq!(actions.len(), 1);
    match &actions[0] {
        WorkerAction::Reply(WorkerResult::ScanError(msg)) => assert_eq!(msg, "No process attached"),
        _ => panic!("expected a scan error"),
    }
}

#[test]
fn rescan_without_attach_returns_error() {
    let mut w = WorkerState::new();
    let actions = w.handle_cmd(WorkerCmd::Rescan(vec![0x01, 0x02, 0x03, 0x04]));
    assert_eq!(actions.len(), 1);
    assert!(matches!(actions[0], WorkerAction::Reply(WorkerResult::ScanError(_))));
}

#[test]
fn pin_add_remove_toggle_do_not_crash() {
    let mut w = WorkerState::new();
    assert!(w.handle_cmd(WorkerCmd::PinAdd(pin(1, true))).is_empty());
    assert!(w.handle_cmd(WorkerCmd::PinToggle(1)).is_empty());
    assert!(!w.pins[0].enabled);
    assert!(w.handle_cmd(WorkerCmd::PinRemove(1)).is_empty());
    assert!(w.pins.is_empty());
    let actions = w.handle_cmd(WorkerCmd::Scan(vec![0; 4]));
    assert!(matches!(actions[0], WorkerAction::Reply(WorkerResult::ScanError(_))));
}

#[test]
fn pin_toggle_unknown_id_does_not_crash() {
    let mut w = WorkerState::new();
    w.handle_cmd(WorkerCmd::PinAdd(pin(1, true)));
    w.handle_cmd(WorkerCmd::PinToggle(9999));
    assert!(w.pins[0].enabled);
    let actions = w.handle_cmd(WorkerCmd::Scan(vec![0; 4]));
    assert!(matches!(actions[0], WorkerAction::Reply(WorkerResult::ScanError(_))));
}

#[test]
fn pin_remove_unknown_id_does_not_crash() {
    let mut w = WorkerState::new();
    w.handle_cmd(WorkerCmd::PinAdd(pin(1, true)));
    w.handle_cmd(WorkerCmd::PinRemove(9999));
    assert_eq!(w.pins.len(), 1);
    let actions = w.handle_cmd(WorkerCmd::Scan(vec![0; 4]));
    assert!(matches!(actions[0], WorkerAction::Reply(WorkerResult::ScanError(_))));
}

#[test]
fn worker_exits_when_sender_dropped() {
    let mut w = WorkerState::new();
    w.attach_finished(7, Ok(0x55));
    let actions = w.shutdown();
    assert_eq!(actions.len(), 1);
    assert!(matches!(actions[0], WorkerAction::CloseHandle(0x55)));
    assert!(w.handle_raw.is_none());
    assert!(w.shutdown().is_empty());
}

#[test]
fn attach_closes_old_handle_and_clears_state() {
    let mut w = WorkerState::new();
    w.attach_finished(1, Ok(0x10));
    w.handle_cmd(WorkerCmd::PinAdd(pin(3, true)));
    let actions = w.handle_cmd(WorkerCmd::Attach(2));
    assert_eq!(actions.len(), 2);
    assert!(matches!(actions[0], WorkerAction::CloseHandle(0x10)));
    assert!(matches!(actions[1], WorkerAction::OpenProcess(2)));
    assert!(w.pins.is_empty());
    assert!(w.candidates.is_empty());
    let reply = w.attach_finished(2, Ok(0x20));
    assert!(matches!(reply, WorkerResult::Attached(2)));
    assert_eq!(w.handle_raw, Some(0x20));
}

#[test]
fn scan_and_rescan_with_handle_ask_for_reads() {
    let mut w = WorkerState::new();
    w.attach_finished(1, Ok(0x10));
    let actions = w.handle_cmd(WorkerCmd::Scan(vec![9, 0]));
    match &actions[0] {
        WorkerAction::FullScan { handle, target } => {
            assert_eq!(*handle, 0x10);
            assert_eq!(target, &vec![9, 0]);
        }
        _ => panic!("expected a full scan"),
    }
    let found = vec![game_slave::types::Candidate { address: 0x40, width: 2, value: vec![9, 0], pinned: false }];
    let reply = w.scan_finished(found);
    assert!(matches!(reply, WorkerResult::ScanComplete(ref v) if v.len() == 1));
    assert_eq!(w.candidates.len(), 1);
    let actions = w.handle_cmd(WorkerCmd::Rescan(vec![8, 0]));
    match &actions[0] {
        WorkerAction::FilterScan { handle, candidates, target } => {
            assert_eq!(*handle, 0x10);
            assert_eq!(candidates.len(), 1);
            assert_eq!(target, &vec![8, 0]);
        }
        _ => panic!("expected a filter scan"),
    }
    assert!(w.candidates.is_empty());
}

#[test]
fn write_needs_a_handle() {
    let mut w = WorkerState::new();
    assert!(w.handle_cmd(WorkerCmd::Write { address: 0x10, value: vec![1] }).is_empty());
    w.attach_finished(1, Ok(0x33));
    let actions = w.handle_cmd(WorkerCmd::Write { address: 0x10, value: vec![1] });
    assert!(matches!(actions[0], WorkerAction::WriteMemory { handle: 0x33, address: 0x10, .. }));
}

#[test]
fn write_replies() {
    assert!(matches!(WorkerState::write_finished(0x10, true), WorkerResult::WriteOk));
    match WorkerState::write_finished(0xdead_beef, false) {
        WorkerResult::WriteErr(msg) => assert_eq!(msg, "Failed to write to 0x00000000deadbeef"),
        _ => panic!("expected a write error"),
    }
}

#[test]
fn freeze_writes_only_enabled_pins() {
    let mut w = WorkerState::new();
    w.handle_cmd(WorkerCmd::PinAdd(pin(1, true)));
    w.handle_cmd(WorkerCmd::PinAdd(pin(2, false)));
    w.handle_cmd(WorkerCmd::PinAdd(pin(3, true)));
    assert!(w.freeze_writes().is_empty());
    w.attach_finished(1, Ok(0x44));
    let actions = w.freeze_writes();
    assert_eq!(actions.len(), 2);
    match (&actions[0], &actions[1]) {
        (
            WorkerAction::WriteMemory { handle: h1, address: a1, value: v1 },
            WorkerAction::WriteMemory { handle: h2, address: a2, value: v2 },
        ) => {
            assert_eq!((*h1, *a1, v1.clone()), (0x44, 0x1001, vec![1; 4]));
            assert_eq!((*h2, *a2, v2.clone()), (0x44, 0x1003, vec![3; 4]));
        }
        _ => panic!("expected two writes"),
    }
}

#[test]
fn toggle_twice_restores_pin() {
    let mut w = WorkerState::new();
    w.handle_cmd(WorkerCmd::PinAdd(pin(5, true)));
    w.handle_cmd(WorkerCmd::PinToggle(5));
    w.handle_cmd(WorkerCmd::PinToggle(5));
    assert!(w.pins[0].enabled);
}

#[test]
fn remove_drops_every_pin_with_id() {
    let mut w = WorkerState::new();
    w.handle_cmd(WorkerCmd::PinAdd(pin(5, true)));
    w.handle_cmd(WorkerCmd::PinAdd(pin(6, true)));
    w.handle_cmd(WorkerCmd::PinAdd(pin(5, false)));
    w.handle_cmd(WorkerCmd::PinRemove(5));
    assert_eq!(w.pins.len(), 1);
    assert_eq!(w.pins[0].id, 6);
}
