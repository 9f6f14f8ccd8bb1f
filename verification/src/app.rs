use vstd::prelude::*;
use crate::process::ProcessInfo;
use crate::scanner::{encode_value, spec_encode};
use crate::text::{
    chars_contain, chars_end_with, chars_of, contains_text, decimal, decimal_chars, ends_with_text,
    hex_address, hex_address_text, parse_decimal, parse_u64, string_from_chars, trim_chars, trimmed,
};
use crate::types::{Candidate, CandidateView, Pin, PinView, WorkerCmd, WorkerResult, candidate_views, pin_views};
use crate::worker::{pins_toggled, pins_without, remove_pins, toggle_pin};

verus! {

/// The page the UI shows.
#[derive(Clone, Copy, Debug, PartialEq, Eq, Structural)]
pub enum Page {
    Processes,
    Scan,
}

/// The UI's state: what it shows and what it last asked the worker for.
/// The loop that drives the UI sends each command that a method returns to
/// the worker, and hands each result from the worker to `apply_result`.
pub struct App {
    pub page: Page,
    pub processes: Vec<ProcessInfo>,
    pub proc_filter: String,
    pub attached_pid: Option<u32>,
    pub attached_name: String,
    pub scan_value_str: String,
    pub scan_width: u8,
    pub candidates: Vec<Candidate>,
    pub scanning: bool,
    pub scan_status: String,
    pub write_value_str: String,
    pub write_status: String,
    pub pins: Vec<Pin>,
    pub next_pin_id: u64,
}

/// Everything but the candidates, the pins and the next pin id is the same in `a` and `b`.
pub open spec fn same_except_pins(a: App, b: App) -> bool {
    &&& a.page == b.page
    &&& a.processes == b.processes
    &&& a.proc_filter == b.proc_filter
    &&& a.attached_pid == b.attached_pid
    &&& a.attached_name == b.attached_name
    &&& a.scan_value_str == b.scan_value_str
    &&& a.scan_width == b.scan_width
    &&& a.scanning == b.scanning
    &&& a.scan_status == b.scan_status
    &&& a.write_value_str == b.write_value_str
    &&& a.write_status == b.write_status
}

/// The value typed into a field, if it is a number.
pub open spec fn typed_value(field: Seq<char>) -> Option<u64> {
    parse_decimal(trimmed(field))
}

/// Parse what was typed into a field: trimmed, then as a `u64`.
pub fn parse_field(field: &String) -> (out: Option<u64>)
    ensures
        out == typed_value(field@),
{
    let cs = trim_chars(field.as_str());
    parse_u64(&cs)
}

fn text(s: &str) -> (out: String)
    ensures
        out@ == s@,
{
    String::from_str(s)
}

fn decimal_text(v: u64) -> (out: String)
    ensures
        out@ == decimal(v as nat),
{
    let cs = decimal_chars(v);
    string_from_chars(&cs)
}

impl App {
    /// The UI as it starts: the process page, nothing attached, width four.
    pub fn new() -> (app: App)
        ensures
            app.page == Page::Processes,
            app.processes@.len() == 0,
            app.proc_filter@.len() == 0,
            app.attached_pid is None,
            app.attached_name@.len() == 0,
            app.scan_value_str@.len() == 0,
            app.scan_width == 4,
            app.candidates@.len() == 0,
            !app.scanning,
            app.scan_status@.len() == 0,
            app.write_value_str@.len() == 0,
            app.write_status@.len() == 0,
            app.pins@.len() == 0,
            app.next_pin_id == 1,
    {
        App {
            page: Page::Processes,
            processes: Vec::new(),
            proc_filter: String::new(),
            attached_pid: None,
            attached_name: String::new(),
            scan_value_str: String::new(),
            scan_width: 4,
            candidates: Vec::new(),
            scanning: false,
            scan_status: String::new(),
            write_value_str: String::new(),
            write_status: String::new(),
            pins: Vec::new(),
            next_pin_id: 1,
        }
    }

    /// Begin attaching to process `pid` named `name`: forget the old
    /// candidates and pins, and ask the worker to attach.
    pub fn attach(&mut self, pid: u32, name: &str) -> (cmd: WorkerCmd)
        ensures
            cmd == WorkerCmd::Attach(pid),
            final(self).attached_pid is None,
            final(self).attached_name@ == name@,
            final(self).candidates@.len() == 0,
            final(self).pins@.len() == 0,
            !final(self).scanning,
            final(self).scan_status@ == "Attaching to "@ + name@ + " (PID "@ + decimal(pid as nat)
                + ")..."@,
            final(self).page == old(self).page,
            final(self).processes == old(self).processes,
            final(self).proc_filter == old(self).proc_filter,
            final(self).scan_value_str == old(self).scan_value_str,
            final(self).scan_width == old(self).scan_width,
            final(self).write_value_str == old(self).write_value_str,
            final(self).write_status == old(self).write_status,
            final(self).next_pin_id == old(self).next_pin_id,
    {
        self.attached_pid = None;
        self.attached_name = String::from_str(name);
        self.candidates = Vec::new();
        self.pins = Vec::new();
        self.scanning = false;
        let mut status = text("Attaching to ");
        status.append(name);
        status.append(" (PID ");
        let num = decimal_text(pid as u64);
        status.append(num.as_str());
        status.append(")...");
        self.scan_status = status;
        WorkerCmd::Attach(pid)
    }
}


/// The bytes a new pin holds: the typed write value encoded at the
/// candidate's width if there is one and the width is supported, else the
/// candidate's last-scanned bytes.
pub open spec fn pin_value(write_field: Seq<char>, c: CandidateView) -> Seq<u8> {
    match typed_value(write_field) {
        Some(v) => if spec_encode(v, c.width).len() > 0 {
            spec_encode(v, c.width)
        } else {
            c.value
        },
        None => c.value,
    }
}

/// The candidates after marking every one at `address` as pinned.
pub open spec fn mark_pinned(cs: Seq<CandidateView>, address: u64) -> Seq<CandidateView> {
    cs.map_values(
        |c: CandidateView|
            if c.address == address {
                CandidateView { pinned: true, ..c }
            } else {
                c
            },
    )
}

/// No two pins share an id, and every id is below the next one to hand out.
pub open spec fn pin_ids_fresh(pins: Seq<PinView>, next_id: u64) -> bool {
    &&& forall|i: int| 0 <= i < pins.len() ==> (#[trigger] pins[i]).id < next_id
    &&& forall|i: int, j: int| 0 <= i < j < pins.len() ==> (#[trigger] pins[i]).id != (#[trigger] pins[j]).id
}

/// Mark every candidate at `address` as pinned.
pub fn mark_candidates(candidates: &mut Vec<Candidate>, address: u64)
    ensures
        candidate_views(final(candidates)@) == mark_pinned(candidate_views(old(candidates)@), address),
{
    let ghost cv = candidate_views(candidates@);
    let mut i: usize = 0;
    while i < candidates.len()
        invariant
            i <= candidates@.len() == cv.len(),
            cv == candidate_views(old(candidates)@),
            forall|k: int| 0 <= k < i ==> #[trigger] candidates@[k]@ == mark_pinned(cv, address)[k],
            forall|k: int| i <= k < candidates@.len() ==> #[trigger] candidates@[k]@ == cv[k],
        decreases candidates@.len() - i,
    {
        if candidates[i].address == address {
            let mut m = candidates[i].duplicate();
            m.pinned = true;
            candidates.set(i, m);
        }
        i = i + 1;
    }
    assert(candidate_views(candidates@) == mark_pinned(cv, address));
}

impl App {
    /// Ask for a scan (or, with `is_rescan`, a re-scan) for the typed value
    /// at the chosen width. Nothing is asked when the value is not a number
    /// or the width is not supported; the status says why.
    pub fn do_scan(&mut self, is_rescan: bool) -> (cmd: Option<WorkerCmd>)
        ensures
            final(self).page == old(self).page,
            final(self).processes == old(self).processes,
            final(self).proc_filter == old(self).proc_filter,
            final(self).attached_pid == old(self).attached_pid,
            final(self).attached_name == old(self).attached_name,
            final(self).scan_value_str == old(self).scan_value_str,
            final(self).scan_width == old(self).scan_width,
            final(self).write_value_str == old(self).write_value_str,
            final(self).write_status == old(self).write_status,
            final(self).pins == old(self).pins,
            final(self).next_pin_id == old(self).next_pin_id,
            match typed_value(old(self).scan_value_str@) {
                None => {
                    &&& cmd is None
                    &&& final(self).scan_status@
                        == "Invalid value \u{2014} enter a non-negative integer."@
                    &&& final(self).scanning == old(self).scanning
                    &&& final(self).candidates == old(self).candidates
                },
                Some(v) => {
                    let target = spec_encode(v, old(self).scan_width);
                    if target.len() == 0 {
                        &&& cmd is None
                        &&& final(self).scan_status@ == "Unsupported width."@
                        &&& final(self).scanning == old(self).scanning
                        &&& final(self).candidates == old(self).candidates
                    } else if is_rescan {
                        &&& cmd matches Some(WorkerCmd::Rescan(t)) && t@ == target
                        &&& final(self).scanning
                        &&& final(self).scan_status@ == "Re-scanning..."@
                        &&& final(self).candidates == old(self).candidates
                    } else {
                        &&& cmd matches Some(WorkerCmd::Scan(t)) && t@ == target
                        &&& final(self).scanning
                        &&& final(self).scan_status@ == "Scanning..."@
                        &&& final(self).candidates@.len() == 0
                    }
                },
            },
    {
        let val = match parse_field(&self.scan_value_str) {
            None => {
                self.scan_status = text("Invalid value \u{2014} enter a non-negative integer.");
                return None;
            },
            Some(v) => v,
        };
        let target = encode_value(val, self.scan_width);
        if target.len() == 0 {
            self.scan_status = text("Unsupported width.");
            return None;
        }
        self.scanning = true;
        if is_rescan {
            self.scan_status = text("Re-scanning...");
            Some(WorkerCmd::Rescan(target))
        } else {
            self.scan_status = text("Scanning...");
            self.candidates = Vec::new();
            Some(WorkerCmd::Scan(target))
        }
    }

    /// Ask to write the typed write value, encoded at `width`, to `address`.
    /// Nothing is asked when the value is not a number.
    pub fn do_write(&mut self, address: u64, width: u8) -> (cmd: Option<WorkerCmd>)
        ensures
            final(self).page == old(self).page,
            final(self).processes == old(self).processes,
            final(self).proc_filter == old(self).proc_filter,
            final(self).attached_pid == old(self).attached_pid,
            final(self).attached_name == old(self).attached_name,
            final(self).scan_value_str == old(self).scan_value_str,
            final(self).scan_width == old(self).scan_width,
            final(self).candidates == old(self).candidates,
            final(self).scanning == old(self).scanning,
            final(self).scan_status == old(self).scan_status,
            final(self).write_value_str == old(self).write_value_str,
            final(self).pins == old(self).pins,
            final(self).next_pin_id == old(self).next_pin_id,
            match typed_value(old(self).write_value_str@) {
                None => {
                    &&& cmd is None
                    &&& final(self).write_status@ == "Invalid value."@
                },
                Some(v) => {
                    &&& cmd matches Some(WorkerCmd::Write { address: a, value: b }) && a == address
                        && b@ == spec_encode(v, width)
                    &&& final(self).write_status@ == "Writing "@ + decimal(v as nat) + " to "@
                        + hex_address_text(address) + "..."@
                },
            },
    {
        let val = match parse_field(&self.write_value_str) {
            None => {
                self.write_status = text("Invalid value.");
                return None;
            },
            Some(v) => v,
        };
        let bytes = encode_value(val, width);
        let mut status = text("Writing ");
        let num = decimal_text(val);
        status.append(num.as_str());
        status.append(" to ");
        let hex = hex_address(address);
        status.append(hex.as_str());
        status.append("...");
        self.write_status = status;
        Some(WorkerCmd::Write { address, value: bytes })
    }

    /// Pin candidate `c` with a fresh id, holding the typed write value or
    /// else its scanned bytes; mark the candidates at its address as pinned
    /// and ask the worker to freeze it.
    pub fn add_pin(&mut self, c: &Candidate) -> (cmd: WorkerCmd)
        requires
            old(self).next_pin_id < u64::MAX,
        ensures
            final(self).next_pin_id == old(self).next_pin_id + 1,
            ({
                let pin = PinView {
                    id: old(self).next_pin_id,
                    address: c.address,
                    width: c.width,
                    value: pin_value(old(self).write_value_str@, c@),
                    enabled: true,
                };
                &&& pin_views(final(self).pins@) == pin_views(old(self).pins@).push(pin)
                &&& cmd matches WorkerCmd::PinAdd(p) && p@ == pin
            }),
            candidate_views(final(self).candidates@) == mark_pinned(
                candidate_views(old(self).candidates@),
                c.address,
            ),
            pin_ids_fresh(pin_views(old(self).pins@), old(self).next_pin_id) ==> pin_ids_fresh(
                pin_views(final(self).pins@),
                final(self).next_pin_id,
            ),
            final(self).page == old(self).page,
            final(self).processes == old(self).processes,
            final(self).proc_filter == old(self).proc_filter,
            final(self).attached_pid == old(self).attached_pid,
            final(self).attached_name == old(self).attached_name,
            final(self).scan_value_str == old(self).scan_value_str,
            final(self).scan_width == old(self).scan_width,
            final(self).scanning == old(self).scanning,
            final(self).scan_status == old(self).scan_status,
            final(self).write_value_str == old(self).write_value_str,
            final(self).write_status == old(self).write_status,
    {
        let id = self.next_pin_id;
        self.next_pin_id = self.next_pin_id + 1;
        let value = match parse_field(&self.write_value_str) {
            Some(v) => {
                let bytes = encode_value(v, c.width);
                if bytes.len() > 0 {
                    bytes
                } else {
                    vstd::slice::slice_to_vec(c.value.as_slice())
                }
            },
            None => vstd::slice::slice_to_vec(c.value.as_slice()),
        };
        let pin = Pin { id, address: c.address, width: c.width, value, enabled: true };
        let ghost old_pins = pin_views(self.pins@);
        self.pins.push(pin.duplicate());
        assert(pin_views(self.pins@) == old_pins.push(pin@));
        mark_candidates(&mut self.candidates, c.address);
        WorkerCmd::PinAdd(pin)
    }
}


impl App {
    /// Take in one result from the worker.
    pub fn apply_result(&mut self, result: WorkerResult)
        ensures
            final(self).processes == old(self).processes,
            final(self).proc_filter == old(self).proc_filter,
            final(self).attached_name == old(self).attached_name,
            final(self).scan_value_str == old(self).scan_value_str,
            final(self).scan_width == old(self).scan_width,
            final(self).write_value_str == old(self).write_value_str,
            final(self).pins == old(self).pins,
            final(self).next_pin_id == old(self).next_pin_id,
            match result {
                WorkerResult::Attached(pid) => {
                    &&& final(self).attached_pid == Some(pid)
                    &&& final(self).scan_status@ == "Attached to PID "@ + decimal(pid as nat) + "."@
                    &&& final(self).page == Page::Scan
                    &&& final(self).candidates == old(self).candidates
                    &&& final(self).scanning == old(self).scanning
                    &&& final(self).write_status == old(self).write_status
                },
                WorkerResult::AttachFailed(msg) => {
                    &&& final(self).attached_pid == old(self).attached_pid
                    &&& final(self).scan_status@ == "Attach failed: "@ + msg@
                    &&& final(self).page == old(self).page
                    &&& final(self).candidates == old(self).candidates
                    &&& final(self).scanning == old(self).scanning
                    &&& final(self).write_status == old(self).write_status
                },
                WorkerResult::ScanComplete(results) => {
                    &&& final(self).attached_pid == old(self).attached_pid
                    &&& final(self).candidates == results
                    &&& !final(self).scanning
                    &&& final(self).scan_status@ == decimal(results@.len()) + " candidates found."@
                    &&& final(self).page == old(self).page
                    &&& final(self).write_status == old(self).write_status
                },
                WorkerResult::ScanError(msg) => {
                    &&& final(self).attached_pid == old(self).attached_pid
                    &&& final(self).candidates == old(self).candidates
                    &&& !final(self).scanning
                    &&& final(self).scan_status@ == "Scan error: "@ + msg@
                    &&& final(self).page == old(self).page
                    &&& final(self).write_status == old(self).write_status
                },
                WorkerResult::WriteOk => {
                    &&& final(self).attached_pid == old(self).attached_pid
                    &&& final(self).candidates == old(self).candidates
                    &&& final(self).scanning == old(self).scanning
                    &&& final(self).scan_status == old(self).scan_status
                    &&& final(self).page == old(self).page
                    &&& final(self).write_status@ == "Write successful."@
                },
                WorkerResult::WriteErr(msg) => {
                    &&& final(self).attached_pid == old(self).attached_pid
                    &&& final(self).candidates == old(self).candidates
                    &&& final(self).scanning == old(self).scanning
                    &&& final(self).scan_status == old(self).scan_status
                    &&& final(self).page == old(self).page
                    &&& final(self).write_status@ == "Write failed: "@ + msg@
                },
            },
    {
        match result {
            WorkerResult::Attached(pid) => {
                self.attached_pid = Some(pid);
                let mut status = text("Attached to PID ");
                let num = decimal_text(pid as u64);
                status.append(num.as_str());
                status.append(".");
                self.scan_status = status;
                self.page = Page::Scan;
            },
            WorkerResult::AttachFailed(msg) => {
                let mut status = text("Attach failed: ");
                status.append(msg.as_str());
                self.scan_status = status;
            },
            WorkerResult::ScanComplete(results) => {
                let n = results.len();
                let mut status = decimal_text(n as u64);
                status.append(" candidates found.");
                self.candidates = results;
                self.scanning = false;
                self.scan_status = status;
            },
            WorkerResult::ScanError(msg) => {
                self.scanning = false;
                let mut status = text("Scan error: ");
                status.append(msg.as_str());
                self.scan_status = status;
            },
            WorkerResult::WriteOk => {
                self.write_status = text("Write successful.");
            },
            WorkerResult::WriteErr(msg) => {
                let mut status = text("Write failed: ");
                status.append(msg.as_str());
                self.write_status = status;
            },
        }
    }

    /// Flip the pin with `id` on or off here and ask the worker to do the same.
    pub fn toggle_pin(&mut self, id: u64) -> (cmd: WorkerCmd)
        ensures
            cmd == WorkerCmd::PinToggle(id),
            pin_views(final(self).pins@) == pins_toggled(pin_views(old(self).pins@), id),
            final(self).next_pin_id == old(self).next_pin_id,
            final(self).candidates == old(self).candidates,
            same_except_pins(*final(self), *old(self)),
    {
        toggle_pin(&mut self.pins, id);
        WorkerCmd::PinToggle(id)
    }

    /// Drop the pins with `id` here and ask the worker to do the same.
    pub fn remove_pin(&mut self, id: u64) -> (cmd: WorkerCmd)
        ensures
            cmd == WorkerCmd::PinRemove(id),
            pin_views(final(self).pins@) == pins_without(pin_views(old(self).pins@), id),
            final(self).next_pin_id == old(self).next_pin_id,
            final(self).candidates == old(self).candidates,
            same_except_pins(*final(self), *old(self)),
    {
        remove_pins(&mut self.pins, id);
        WorkerCmd::PinRemove(id)
    }

    /// Pin the candidate shown at row `i`, if there is one.
    pub fn pin_candidate(&mut self, i: usize) -> (cmd: Option<WorkerCmd>)
        requires
            i < old(self).candidates@.len() ==> old(self).next_pin_id < u64::MAX,
        ensures
            same_except_pins(*final(self), *old(self)),
            i >= old(self).candidates@.len() ==> cmd is None && final(self).pins == old(self).pins
                && final(self).next_pin_id == old(self).next_pin_id && final(self).candidates
                == old(self).candidates,
            i < old(self).candidates@.len() ==> {
                let c = old(self).candidates@[i as int]@;
                let pin = PinView {
                    id: old(self).next_pin_id,
                    address: c.address,
                    width: c.width,
                    value: pin_value(old(self).write_value_str@, c),
                    enabled: true,
                };
                &&& pin_views(final(self).pins@) == pin_views(old(self).pins@).push(pin)
                &&& cmd matches Some(WorkerCmd::PinAdd(p)) && p@ == pin
                &&& candidate_views(final(self).candidates@) == mark_pinned(
                    candidate_views(old(self).candidates@),
                    c.address,
                )
                &&& final(self).next_pin_id == old(self).next_pin_id + 1
            },
    {
        if i < self.candidates.len() {
            let c = self.candidates[i].duplicate();
            Some(self.add_pin(&c))
        } else {
            None
        }
    }

    /// Whether a first scan can be started: no scan running, a process
    /// attached, and a number typed.
    pub fn can_scan(&self) -> (r: bool)
        ensures
            r == (!self.scanning && self.attached_pid is Some && typed_value(self.scan_value_str@)
                is Some),
    {
        !self.scanning && self.attached_pid.is_some() && parse_field(&self.scan_value_str).is_some()
    }

    /// Whether a re-scan can be started: as for a first scan, with candidates to narrow.
    pub fn can_rescan(&self) -> (r: bool)
        ensures
            r == (!self.scanning && self.attached_pid is Some && typed_value(self.scan_value_str@)
                is Some && self.candidates@.len() > 0),
    {
        self.can_scan() && self.candidates.len() > 0
    }

    /// Whether the UI must keep repainting: while scanning or freezing.
    pub fn needs_repaint(&self) -> (r: bool)
        ensures
            r == (self.scanning || self.pins@.len() > 0),
    {
        self.scanning || self.pins.len() > 0
    }
}


/// How a status line reads, which sets its colour.
#[derive(Clone, Copy, Debug, PartialEq, Eq, Structural)]
pub enum StatusKind {
    Error,
    Success,
    Pending,
    Neutral,
}

/// The kind of the status line `s`: a failure, a success, work under way, or
/// anything else, tested in that order.
pub open spec fn spec_status_kind(s: Seq<char>) -> StatusKind {
    if contains_text(s, "failed"@) || contains_text(s, "error"@) || contains_text(s, "Invalid"@) {
        StatusKind::Error
    } else if contains_text(s, "successful"@) || contains_text(s, "Attached to"@) {
        StatusKind::Success
    } else if ends_with_text(s, "..."@) || contains_text(s, "Scanning"@) || contains_text(
        s,
        "Attaching"@,
    ) {
        StatusKind::Pending
    } else {
        StatusKind::Neutral
    }
}

fn mentions(cs: &Vec<char>, word: &str) -> (r: bool)
    ensures
        r == contains_text(cs@, word@),
{
    let w = chars_of(word);
    chars_contain(cs, &w)
}

/// Classify a status line for colouring.
pub fn status_kind(s: &str) -> (k: StatusKind)
    ensures
        k == spec_status_kind(s@),
{
    let cs = chars_of(s);
    if mentions(&cs, "failed") || mentions(&cs, "error") || mentions(&cs, "Invalid") {
        StatusKind::Error
    } else if mentions(&cs, "successful") || mentions(&cs, "Attached to") {
        StatusKind::Success
    } else {
        let dots = chars_of("...");
        if chars_end_with(&cs, &dots) || mentions(&cs, "Scanning") || mentions(&cs, "Attaching") {
            StatusKind::Pending
        } else {
            StatusKind::Neutral
        }
    }
}

/// How many candidates the result table shows at most.
pub const DISPLAY_LIMIT: usize = 2000;

impl App {
    /// How many candidates the result table shows.
    pub fn shown_candidates(&self) -> (n: usize)
        ensures
            n == if self.candidates@.len() <= DISPLAY_LIMIT { self.candidates@.len() } else { DISPLAY_LIMIT as nat },
    {
        if self.candidates.len() <= DISPLAY_LIMIT {
            self.candidates.len()
        } else {
            DISPLAY_LIMIT
        }
    }

    /// How many candidates the result table leaves out.
    pub fn hidden_candidates(&self) -> (n: usize)
        ensures
            n == if self.candidates@.len() <= DISPLAY_LIMIT { 0 } else { self.candidates@.len() - DISPLAY_LIMIT },
    {
        if self.candidates.len() <= DISPLAY_LIMIT {
            0
        } else {
            self.candidates.len() - DISPLAY_LIMIT
        }
    }
}


/// Law: toggling or removing pins keeps their ids distinct and below the next
/// id to hand out.
pub proof fn law_pin_ids_stay_fresh(pins: Seq<PinView>, next_id: u64, id: u64)
    requires
        pin_ids_fresh(pins, next_id),
    ensures
        pin_ids_fresh(pins_toggled(pins, id), next_id),
        pin_ids_fresh(pins_without(pins, id), next_id),
{
    crate::worker::law_toggle_keeps_pins(pins, id);
    let kept = pins_without(pins, id);
    lemma_filter_subsequence(pins, id);
    assert forall|i: int, j: int| 0 <= i < j < kept.len() implies (#[trigger] kept[i]).id != (
    #[trigger] kept[j]).id by {
        let (a, b) = choose|a: int, b: int|
            0 <= a < b < pins.len() && pins[a] == kept[i] && pins[b] == kept[j];
    }
    assert forall|i: int| 0 <= i < kept.len() implies (#[trigger] kept[i]).id < next_id by {
        let a = choose|a: int| 0 <= a < pins.len() && #[trigger] pins[a] == kept[i];
    }
}

/// Every pair of elements of the filtered pins comes, in the same order, from
/// the pins.
proof fn lemma_filter_subsequence(pins: Seq<PinView>, id: u64)
    ensures
        forall|i: int, j: int|
            0 <= i < j < pins_without(pins, id).len() ==> exists|a: int, b: int|
                0 <= a < b < pins.len() && pins[a] == #[trigger] pins_without(pins, id)[i] && pins[b]
                    == #[trigger] pins_without(pins, id)[j],
        forall|i: int|
            #![trigger pins_without(pins, id)[i]]
            0 <= i < pins_without(pins, id).len() ==> exists|a: int|
                0 <= a < pins.len() && #[trigger] pins[a] == pins_without(pins, id)[i],
    decreases pins.len(),
{
    reveal(Seq::filter);
    if pins.len() > 0 {
        let init = pins.drop_last();
        lemma_filter_subsequence(init, id);
        let prev = pins_without(init, id);
        let cur = pins_without(pins, id);
        assert forall|i: int, j: int| 0 <= i < j < cur.len() implies exists|a: int, b: int|
            0 <= a < b < pins.len() && pins[a] == #[trigger] cur[i] && pins[b] == #[trigger] cur[j] by {
            if j < prev.len() {
                assert(cur[i] == prev[i] && cur[j] == prev[j]);
                let (a, b) = choose|a: int, b: int|
                    0 <= a < b < init.len() && init[a] == prev[i] && init[b] == prev[j];
                assert(pins[a] == init[a] && pins[b] == init[b]);
            } else {
                assert(cur[i] == prev[i]);
                assert(cur[j] == pins.last());
                let a = choose|a: int| 0 <= a < init.len() && #[trigger] init[a] == prev[i];
                assert(pins[a] == init[a]);
                assert(pins[pins.len() - 1] == cur[j]);
            }
        }
        assert forall|i: int| #![trigger cur[i]] 0 <= i < cur.len() implies exists|a: int|
            0 <= a < pins.len() && #[trigger] pins[a] == cur[i] by {
            if i < prev.len() {
                assert(cur[i] == prev[i]);
                let a = choose|a: int| 0 <= a < init.len() && #[trigger] init[a] == prev[i];
                assert(pins[a] == init[a]);
            } else {
                assert(pins[pins.len() - 1] == cur[i]);
            }
        }
    }
}

} // verus!
