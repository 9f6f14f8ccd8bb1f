use vstd::prelude::*;
use crate::text::{hex_address, hex_address_text, string_from_chars};
use crate::types::{
    Candidate, CandidateView, Pin, PinView, WorkerCmd, WorkerResult, candidate_views,
    duplicate_candidates, pin_views,
};

verus! {

/// Outside work that the worker's decisions ask for; the loop that drives the
/// worker performs each one and reports back where an answer is expected.
pub enum WorkerAction {
    /// Close the process handle.
    CloseHandle(usize),
    /// Open the process with this PID; answer with `attach_finished`.
    OpenProcess(u32),
    /// Read every readable region and run `full_scan`; answer with `scan_finished`.
    FullScan { handle: usize, target: Vec<u8> },
    /// Read each candidate's address and run `filter_scan`; answer with `scan_finished`.
    FilterScan { handle: usize, candidates: Vec<Candidate>, target: Vec<u8> },
    /// Write bytes to an address. After a `Write` command, answer with `write_finished`.
    WriteMemory { handle: usize, address: u64, value: Vec<u8> },
    /// Send this result to the UI.
    Reply(WorkerResult),
}

/// The worker thread's state: the attached process, the last scan's
/// candidates and the pins to keep frozen.
pub struct WorkerState {
    pub handle_raw: Option<usize>,
    pub candidates: Vec<Candidate>,
    pub pins: Vec<Pin>,
}

/// The message of a scan requested while no process is attached.
pub open spec fn no_process_text() -> Seq<char> {
    seq![
        'N', 'o', ' ', 'p', 'r', 'o', 'c', 'e', 's', 's', ' ', 'a', 't', 't', 'a', 'c', 'h', 'e', 'd',
    ]
}

/// The message of a failed write to `address`.
pub open spec fn write_failed_text(address: u64) -> Seq<char> {
    seq![
        'F', 'a', 'i', 'l', 'e', 'd', ' ', 't', 'o', ' ', 'w', 'r', 'i', 't', 'e', ' ', 't', 'o', ' ',
    ] + hex_address_text(address)
}

/// The pins after removing every pin with `id`, the others in order.
pub open spec fn pins_without(pins: Seq<PinView>, id: u64) -> Seq<PinView> {
    pins.filter(|p: PinView| p.id != id)
}

/// The index of the first pin with `id`, if any.
pub open spec fn first_pin_index(pins: Seq<PinView>, id: u64) -> Option<int> {
    if exists|i: int| 0 <= i < pins.len() && pins[i].id == id {
        Some(choose|i: int| 0 <= i < pins.len() && pins[i].id == id && forall|j: int| 0 <= j < i ==> pins[j].id != id)
    } else {
        None
    }
}

/// The pins after flipping `enabled` on the first pin with `id`, if any.
pub open spec fn pins_toggled(pins: Seq<PinView>, id: u64) -> Seq<PinView> {
    match first_pin_index(pins, id) {
        Some(i) => pins.update(i, PinView { enabled: !pins[i].enabled, ..pins[i] }),
        None => pins,
    }
}

fn no_process_message() -> (s: String)
    ensures
        s@ == no_process_text(),
{
    let v: Vec<char> = vec![
        'N', 'o', ' ', 'p', 'r', 'o', 'c', 'e', 's', 's', ' ', 'a', 't', 't', 'a', 'c', 'h', 'e', 'd',
    ];
    string_from_chars(&v)
}

impl WorkerState {
    /// A worker attached to nothing, with no candidates and no pins.
    pub fn new() -> (s: WorkerState)
        ensures
            s.handle_raw is None,
            s.candidates@.len() == 0,
            s.pins@.len() == 0,
    {
        WorkerState { handle_raw: None, candidates: Vec::new(), pins: Vec::new() }
    }

    /// Forget the handle, asking for it to be closed if there was one.
    pub fn close_handle(&mut self) -> (actions: Vec<WorkerAction>)
        ensures
            final(self).handle_raw is None,
            final(self).candidates == old(self).candidates,
            final(self).pins == old(self).pins,
            match old(self).handle_raw {
                Some(h) => actions@.len() == 1 && actions@[0] == WorkerAction::CloseHandle(h),
                None => actions@.len() == 0,
            },
    {
        let mut actions: Vec<WorkerAction> = Vec::new();
        if let Some(h) = self.handle_raw {
            actions.push(WorkerAction::CloseHandle(h));
        }
        self.handle_raw = None;
        actions
    }
}


/// `a` is a reply carrying a scan error with message `msg`.
pub open spec fn is_scan_error_reply(a: WorkerAction, msg: Seq<char>) -> bool {
    match a {
        WorkerAction::Reply(WorkerResult::ScanError(s)) => s@ == msg,
        _ => false,
    }
}

/// `a` asks to write the bytes `value` at `address` through `handle`.
pub open spec fn is_write_of(a: WorkerAction, handle: usize, address: u64, value: Seq<u8>) -> bool {
    match a {
        WorkerAction::WriteMemory { handle: h, address: x, value: v } => h == handle && x == address
            && v@ == value,
        _ => false,
    }
}

/// The actions that closing `handle` asks for.
pub open spec fn close_actions(handle: Option<usize>) -> Seq<WorkerAction> {
    match handle {
        Some(h) => seq![WorkerAction::CloseHandle(h)],
        None => Seq::empty(),
    }
}

/// The pins that the freeze loop rewrites, in order.
pub open spec fn enabled_pins(pins: Seq<PinView>) -> Seq<PinView> {
    pins.filter(|p: PinView| p.enabled)
}

/// Remove every pin with `id`, keeping the others in order.
pub fn remove_pins(pins: &mut Vec<Pin>, id: u64)
    ensures
        pin_views(final(pins)@) == pins_without(pin_views(old(pins)@), id),
{
    let ghost pv = pin_views(pins@);
    let mut kept: Vec<Pin> = Vec::new();
    let mut i: usize = 0;
    while i < pins.len()
        invariant
            i <= pins@.len(),
            pv == pin_views(pins@),
            pin_views(kept@) == pins_without(pv.take(i as int), id),
        decreases pins@.len() - i,
    {
        let ghost before = pin_views(kept@);
        proof {
            reveal(Seq::filter);
            assert(pv.take(i + 1).drop_last() == pv.take(i as int));
            assert(pv.take(i + 1).last() == pins@[i as int]@);
        }
        if pins[i].id != id {
            let p = pins[i].duplicate();
            kept.push(p);
            assert(pin_views(kept@) == before.push(p@));
        } else {
            assert(pin_views(kept@) == before);
        }
        i = i + 1;
    }
    assert(pv.take(i as int) == pv);
    std::mem::swap(pins, &mut kept);
}

/// Flip `enabled` on the first pin with `id`; nothing changes when there is none.
pub fn toggle_pin(pins: &mut Vec<Pin>, id: u64)
    ensures
        pin_views(final(pins)@) == pins_toggled(pin_views(old(pins)@), id),
{
    let ghost pv = pin_views(pins@);
    let mut i: usize = 0;
    while i < pins.len()
        invariant
            i <= pins@.len(),
            pv == pin_views(pins@),
            pins@ == old(pins)@,
            forall|j: int| 0 <= j < i ==> pv[j].id != id,
        decreases pins@.len() - i,
    {
        if pins[i].id == id {
            let mut p = pins[i].duplicate();
            p.enabled = !p.enabled;
            let ghost newp = p@;
            pins.set(i, p);
            proof {
                assert(pv[i as int].id == id);
                let fi = first_pin_index(pv, id);
                assert(fi is Some);
                let k = fi->0;
                assert(k == i) by {
                    if k < i {
                        assert(pv[k].id != id);
                    } else if k > i {
                        assert(pv[i as int].id == id);
                    }
                }
                assert(pin_views(pins@) == pv.update(i as int, newp));
            }
            return;
        }
        i = i + 1;
    }
    assert(!(exists|j: int| 0 <= j < pv.len() && pv[j].id == id));
}

impl WorkerState {
    /// Decide what a command from the UI does to the worker and which outside
    /// work it asks for.
    pub fn handle_cmd(&mut self, cmd: WorkerCmd) -> (actions: Vec<WorkerAction>)
        ensures
            match cmd {
                WorkerCmd::Attach(pid) => {
                    &&& final(self).handle_raw is None
                    &&& final(self).candidates@.len() == 0
                    &&& final(self).pins@.len() == 0
                    &&& actions@ == close_actions(old(self).handle_raw).push(
                        WorkerAction::OpenProcess(pid),
                    )
                },
                WorkerCmd::Scan(target) => {
                    &&& final(self).handle_raw == old(self).handle_raw
                    &&& final(self).candidates == old(self).candidates
                    &&& final(self).pins == old(self).pins
                    &&& actions@.len() == 1
                    &&& match old(self).handle_raw {
                        None => is_scan_error_reply(actions@[0], no_process_text()),
                        Some(h) => actions@[0] == WorkerAction::FullScan { handle: h, target },
                    }
                },
                WorkerCmd::Rescan(target) => {
                    &&& final(self).handle_raw == old(self).handle_raw
                    &&& final(self).pins == old(self).pins
                    &&& actions@.len() == 1
                    &&& match old(self).handle_raw {
                        None => {
                            &&& final(self).candidates == old(self).candidates
                            &&& is_scan_error_reply(actions@[0], no_process_text())
                        },
                        Some(h) => {
                            &&& final(self).candidates@.len() == 0
                            &&& actions@[0] == WorkerAction::FilterScan {
                                handle: h,
                                candidates: old(self).candidates,
                                target,
                            }
                        },
                    }
                },
                WorkerCmd::Write { address, value } => {
                    &&& final(self).handle_raw == old(self).handle_raw
                    &&& final(self).candidates == old(self).candidates
                    &&& final(self).pins == old(self).pins
                    &&& match old(self).handle_raw {
                        None => actions@.len() == 0,
                        Some(h) => actions@ == seq![
                            WorkerAction::WriteMemory { handle: h, address, value },
                        ],
                    }
                },
                WorkerCmd::PinAdd(pin) => {
                    &&& final(self).handle_raw == old(self).handle_raw
                    &&& final(self).candidates == old(self).candidates
                    &&& final(self).pins@ == old(self).pins@.push(pin)
                    &&& actions@.len() == 0
                },
                WorkerCmd::PinRemove(id) => {
                    &&& final(self).handle_raw == old(self).handle_raw
                    &&& final(self).candidates == old(self).candidates
                    &&& pin_views(final(self).pins@) == pins_without(pin_views(old(self).pins@), id)
                    &&& actions@.len() == 0
                },
                WorkerCmd::PinToggle(id) => {
                    &&& final(self).handle_raw == old(self).handle_raw
                    &&& final(self).candidates == old(self).candidates
                    &&& pin_views(final(self).pins@) == pins_toggled(pin_views(old(self).pins@), id)
                    &&& actions@.len() == 0
                },
            },
    {
        match cmd {
            WorkerCmd::Attach(pid) => {
                let mut actions = self.close_handle();
                self.candidates = Vec::new();
                self.pins = Vec::new();
                actions.push(WorkerAction::OpenProcess(pid));
                actions
            },
            WorkerCmd::Scan(target) => {
                let mut actions: Vec<WorkerAction> = Vec::new();
                match self.handle_raw {
                    None => {
                        actions.push(
                            WorkerAction::Reply(WorkerResult::ScanError(no_process_message())),
                        );
                    },
                    Some(h) => {
                        actions.push(WorkerAction::FullScan { handle: h, target });
                    },
                }
                actions
            },
            WorkerCmd::Rescan(target) => {
                let mut actions: Vec<WorkerAction> = Vec::new();
                match self.handle_raw {
                    None => {
                        actions.push(
                            WorkerAction::Reply(WorkerResult::ScanError(no_process_message())),
                        );
                    },
                    Some(h) => {
                        let mut old_candidates: Vec<Candidate> = Vec::new();
                        std::mem::swap(&mut old_candidates, &mut self.candidates);
                        actions.push(
                            WorkerAction::FilterScan { handle: h, candidates: old_candidates, target },
                        );
                    },
                }
                actions
            },
            WorkerCmd::Write { address, value } => {
                let mut actions: Vec<WorkerAction> = Vec::new();
                if let Some(h) = self.handle_raw {
                    actions.push(WorkerAction::WriteMemory { handle: h, address, value });
                }
                actions
            },
            WorkerCmd::PinAdd(pin) => {
                self.pins.push(pin);
                Vec::new()
            },
            WorkerCmd::PinRemove(id) => {
                remove_pins(&mut self.pins, id);
                Vec::new()
            },
            WorkerCmd::PinToggle(id) => {
                toggle_pin(&mut self.pins, id);
                Vec::new()
            },
        }
    }
}


impl WorkerState {
    /// Record the outcome of opening the process asked for by an attach: the
    /// handle on success, and the reply to send either way.
    pub fn attach_finished(&mut self, pid: u32, opened: Result<usize, String>) -> (reply:
        WorkerResult)
        ensures
            final(self).candidates == old(self).candidates,
            final(self).pins == old(self).pins,
            match opened {
                Ok(h) => final(self).handle_raw == Some(h) && reply == WorkerResult::Attached(pid),
                Err(msg) => final(self).handle_raw == old(self).handle_raw && reply
                    == WorkerResult::AttachFailed(msg),
            },
    {
        match opened {
            Ok(h) => {
                self.handle_raw = Some(h);
                WorkerResult::Attached(pid)
            },
            Err(msg) => WorkerResult::AttachFailed(msg),
        }
    }

    /// Keep the results of a scan or re-scan as the current candidates and
    /// reply with them.
    pub fn scan_finished(&mut self, results: Vec<Candidate>) -> (reply: WorkerResult)
        ensures
            final(self).handle_raw == old(self).handle_raw,
            final(self).pins == old(self).pins,
            candidate_views(final(self).candidates@) == candidate_views(results@),
            reply == WorkerResult::ScanComplete(results),
    {
        self.candidates = duplicate_candidates(&results);
        WorkerResult::ScanComplete(results)
    }

    /// The reply to a write to `address`, given whether it succeeded.
    pub fn write_finished(address: u64, ok: bool) -> (reply: WorkerResult)
        ensures
            ok ==> reply == WorkerResult::WriteOk,
            !ok ==> (reply matches WorkerResult::WriteErr(msg) && msg@ == write_failed_text(address)),
    {
        if ok {
            WorkerResult::WriteOk
        } else {
            let mut msg = string_from_chars(
                &vec![
                    'F', 'a', 'i', 'l', 'e', 'd', ' ', 't', 'o', ' ', 'w', 'r', 'i', 't', 'e', ' ', 't', 'o', ' ',
                ],
            );
            let hex = hex_address(address);
            msg.append(hex.as_str());
            WorkerResult::WriteErr(msg)
        }
    }

    /// The writes of one freeze round: every enabled pin, in order, when a
    /// process is attached; nothing otherwise.
    pub fn freeze_writes(&self) -> (actions: Vec<WorkerAction>)
        ensures
            match self.handle_raw {
                None => actions@.len() == 0,
                Some(h) => {
                    &&& actions@.len() == enabled_pins(pin_views(self.pins@)).len()
                    &&& forall|k: int|
                        0 <= k < actions@.len() ==> is_write_of(
                            #[trigger] actions@[k],
                            h,
                            enabled_pins(pin_views(self.pins@))[k].address,
                            enabled_pins(pin_views(self.pins@))[k].value,
                        )
                    &&& forall|i: int|
                        0 <= i < self.pins@.len() && (#[trigger] self.pins@[i]).enabled ==> exists|k: int|
                            0 <= k < actions@.len() && is_write_of(
                                #[trigger] actions@[k],
                                h,
                                self.pins@[i].address,
                                self.pins@[i].value@,
                            )
                    &&& forall|k: int|
                        0 <= k < actions@.len() ==> written_for_enabled_pin(
                            self.pins@,
                            h,
                            #[trigger] actions@[k],
                        )
                },
            },
    {
        let mut actions: Vec<WorkerAction> = Vec::new();
        let h = match self.handle_raw {
            None => {
                return actions;
            },
            Some(h) => h,
        };
        let ghost pv = pin_views(self.pins@);
        let mut i: usize = 0;
        while i < self.pins.len()
            invariant
                i <= self.pins@.len(),
                pv == pin_views(self.pins@),
                actions@.len() == enabled_pins(pv.take(i as int)).len(),
                forall|k: int|
                    0 <= k < actions@.len() ==> is_write_of(
                        #[trigger] actions@[k],
                        h,
                        enabled_pins(pv.take(i as int))[k].address,
                        enabled_pins(pv.take(i as int))[k].value,
                    ),
            decreases self.pins@.len() - i,
        {
            let ghost before = enabled_pins(pv.take(i as int));
            proof {
                reveal(Seq::filter);
                assert(pv.take(i + 1).drop_last() == pv.take(i as int));
                assert(pv.take(i + 1).last() == self.pins@[i as int]@);
            }
            let p = &self.pins[i];
            if p.enabled {
                let a = WorkerAction::WriteMemory {
                    handle: h,
                    address: p.address,
                    value: vstd::slice::slice_to_vec(p.value.as_slice()),
                };
                actions.push(a);
                assert(enabled_pins(pv.take(i + 1)) == before.push(p@));
            }
            i = i + 1;
        }
        assert(pv.take(i as int) == pv);
        proof {
            lemma_freeze_cover(self.pins@, actions@, h);
        }
        actions
    }

    /// Stop: forget the handle, asking for it to be closed if there was one.
    pub fn shutdown(&mut self) -> (actions: Vec<WorkerAction>)
        ensures
            final(self).handle_raw is None,
            actions@ == close_actions(old(self).handle_raw),
    {
        self.close_handle()
    }
}


/// Law: toggling the same pin twice restores the pin list.
pub proof fn law_toggle_twice_restores(pins: Seq<PinView>, id: u64)
    ensures
        pins_toggled(pins_toggled(pins, id), id) == pins,
{
    let once = pins_toggled(pins, id);
    lemma_first_pin_index(pins, id);
    lemma_first_pin_index(once, id);
    match first_pin_index(pins, id) {
        Some(i) => {
            assert(once[i].id == id);
            let j = first_pin_index(once, id)->0;
            assert(first_pin_index(once, id) is Some);
            assert(j == i) by {
                if j < i {
                    assert(once[j] == pins[j]);
                } else if j > i {
                    assert(once[i].id == id);
                }
            }
            assert(pins_toggled(once, id) =~= pins);
        },
        None => {},
    }
}

proof fn lemma_least_pin_index(pins: Seq<PinView>, id: u64, k: int)
    requires
        0 <= k < pins.len(),
        pins[k].id == id,
    ensures
        exists|i: int|
            0 <= i < pins.len() && pins[i].id == id && forall|j: int| 0 <= j < i ==> pins[j].id != id,
    decreases k,
{
    if exists|j: int| 0 <= j < k && pins[j].id == id {
        let j = choose|j: int| 0 <= j < k && pins[j].id == id;
        lemma_least_pin_index(pins, id, j);
    } else {
        assert(forall|j: int| 0 <= j < k ==> pins[j].id != id);
    }
}

/// What `first_pin_index` picks: the least index of a pin with `id`.
pub proof fn lemma_first_pin_index(pins: Seq<PinView>, id: u64)
    ensures
        match first_pin_index(pins, id) {
            Some(i) => 0 <= i < pins.len() && pins[i].id == id && forall|j: int|
                0 <= j < i ==> pins[j].id != id,
            None => forall|j: int| 0 <= j < pins.len() ==> pins[j].id != id,
        },
{
    if exists|i: int| 0 <= i < pins.len() && pins[i].id == id {
        let k = choose|i: int| 0 <= i < pins.len() && pins[i].id == id;
        lemma_least_pin_index(pins, id, k);
    }
}

/// Law: toggling changes only the `enabled` mark of one pin: the list keeps
/// its length, and every pin its id, address, width and value.
pub proof fn law_toggle_keeps_pins(pins: Seq<PinView>, id: u64)
    ensures
        pins_toggled(pins, id).len() == pins.len(),
        forall|i: int|
            0 <= i < pins.len() ==> {
                let p = #[trigger] pins_toggled(pins, id)[i];
                &&& p.id == pins[i].id
                &&& p.address == pins[i].address
                &&& p.width == pins[i].width
                &&& p.value == pins[i].value
            },
{
    lemma_first_pin_index(pins, id);
}

/// Law: after removing an id, no pin has it, and the pins with other ids stay,
/// in order; removing an id that no pin has changes nothing.
pub proof fn law_remove_pins(pins: Seq<PinView>, id: u64)
    ensures
        forall|i: int|
            0 <= i < pins_without(pins, id).len() ==> (#[trigger] pins_without(pins, id)[i]).id != id,
        forall|i: int|
            0 <= i < pins.len() && pins[i].id != id ==> pins_without(pins, id).contains(
                #[trigger] pins[i],
            ),
        (forall|i: int| 0 <= i < pins.len() ==> (#[trigger] pins[i]).id != id) ==> pins_without(
            pins,
            id,
        ) == pins,
    decreases pins.len(),
{
    broadcast use vstd::seq_lib::group_filter_ensures;

    if forall|i: int| 0 <= i < pins.len() ==> (#[trigger] pins[i]).id != id {
        lemma_filter_keeps_all(pins, id);
    }
}

proof fn lemma_filter_keeps_all(pins: Seq<PinView>, id: u64)
    requires
        forall|i: int| 0 <= i < pins.len() ==> (#[trigger] pins[i]).id != id,
    ensures
        pins_without(pins, id) == pins,
    decreases pins.len(),
{
    reveal(Seq::filter);
    if pins.len() > 0 {
        lemma_filter_keeps_all(pins.drop_last(), id);
        assert(pins.drop_last().push(pins.last()) == pins);
    }
}

/// Law: adding a pin and then removing its id leaves the same pins as
/// removing that id alone.
pub proof fn law_remove_undoes_add(pins: Seq<PinView>, pin: PinView)
    ensures
        pins_without(pins.push(pin), pin.id) == pins_without(pins, pin.id),
{
    reveal(Seq::filter);
    assert(pins.push(pin).drop_last() == pins);
}


/// `a` writes the value of some enabled pin of `pins` at its address through `handle`.
pub open spec fn written_for_enabled_pin(pins: Seq<Pin>, handle: usize, a: WorkerAction) -> bool {
    exists|i: int|
        0 <= i < pins.len() && pins[i].enabled && #[trigger] is_write_of(
            a,
            handle,
            pins[i].address,
            pins[i].value@,
        )
}

proof fn lemma_freeze_cover(pins: Seq<Pin>, actions: Seq<WorkerAction>, h: usize)
    requires
        actions.len() == enabled_pins(pin_views(pins)).len(),
        forall|k: int|
            0 <= k < actions.len() ==> is_write_of(
                #[trigger] actions[k],
                h,
                enabled_pins(pin_views(pins))[k].address,
                enabled_pins(pin_views(pins))[k].value,
            ),
    ensures
        forall|i: int|
            0 <= i < pins.len() && (#[trigger] pins[i]).enabled ==> exists|k: int|
                0 <= k < actions.len() && is_write_of(
                    #[trigger] actions[k],
                    h,
                    pins[i].address,
                    pins[i].value@,
                ),
        forall|k: int| 0 <= k < actions.len() ==> written_for_enabled_pin(pins, h, #[trigger] actions[k]),
{
    let pv = pin_views(pins);
    let en = enabled_pins(pv);
    law_freeze_writes_every_enabled_pin(pv);
    assert forall|i: int| 0 <= i < pins.len() && (#[trigger] pins[i]).enabled implies exists|k: int|
        0 <= k < actions.len() && is_write_of(#[trigger] actions[k], h, pins[i].address, pins[i].value@) by {
        assert(pv[i] == pins[i]@);
        let k = choose|k: int| 0 <= k < en.len() && en[k] == #[trigger] pv[i];
        assert(is_write_of(actions[k], h, en[k].address, en[k].value));
    }
    assert forall|k: int| 0 <= k < actions.len() implies written_for_enabled_pin(
        pins,
        h,
        #[trigger] actions[k],
    ) by {
        assert(en[k].enabled);
        let i = choose|i: int| 0 <= i < pv.len() && #[trigger] pv[i] == en[k];
        assert(pv[i] == pins[i]@);
        assert(is_write_of(actions[k], h, en[k].address, en[k].value));
        assert(pins[i].enabled);
        assert(is_write_of(actions[k], h, pins[i].address, pins[i].value@));
    }
}

/// Law: the pins a freeze round rewrites are exactly the enabled ones: every
/// enabled pin is among them, each of them is an enabled pin of the list, and
/// there are as many as the list has enabled pins.
pub proof fn law_freeze_writes_every_enabled_pin(pins: Seq<PinView>)
    ensures
        forall|i: int|
            0 <= i < pins.len() && (#[trigger] pins[i]).enabled ==> exists|k: int|
                0 <= k < enabled_pins(pins).len() && enabled_pins(pins)[k] == #[trigger] pins[i],
        forall|k: int|
            0 <= k < enabled_pins(pins).len() ==> (#[trigger] enabled_pins(pins)[k]).enabled
                && exists|i: int| 0 <= i < pins.len() && #[trigger] pins[i] == enabled_pins(pins)[k],
    decreases pins.len(),
{
    reveal(Seq::filter);
    if pins.len() > 0 {
        let init = pins.drop_last();
        law_freeze_writes_every_enabled_pin(init);
        let en = enabled_pins(pins);
        let prev = enabled_pins(init);
        assert forall|i: int| 0 <= i < pins.len() && (#[trigger] pins[i]).enabled implies exists|k: int|
            0 <= k < en.len() && en[k] == #[trigger] pins[i] by {
            if i < init.len() {
                assert(init[i] == pins[i]);
                let k = choose|k: int| 0 <= k < prev.len() && prev[k] == #[trigger] init[i];
                assert(en[k] == prev[k]);
            } else {
                assert(en[en.len() - 1] == pins[i]);
            }
        }
        assert forall|k: int| 0 <= k < en.len() implies (#[trigger] en[k]).enabled && exists|i: int|
            0 <= i < pins.len() && #[trigger] pins[i] == en[k] by {
            if k < prev.len() {
                assert(en[k] == prev[k]);
                let i = choose|i: int| 0 <= i < init.len() && #[trigger] init[i] == prev[k];
                assert(pins[i] == init[i]);
            } else {
                assert(en[k] == pins.last());
                assert(pins[pins.len() - 1] == en[k]);
            }
        }
    }
}


/// Law: toggling flips the `enabled` mark of the first pin with the id, and of
/// no other pin; everything else stays as it was.
pub proof fn law_toggle_flips_first_pin_with_id(pins: Seq<PinView>, id: u64)
    ensures
        pins_toggled(pins, id).len() == pins.len(),
        forall|i: int|
            0 <= i < pins.len() ==> #[trigger] pins_toggled(pins, id)[i] == if pins[i].id == id && (
            forall|j: int| 0 <= j < i ==> pins[j].id != id) {
                PinView { enabled: !pins[i].enabled, ..pins[i] }
            } else {
                pins[i]
            },
{
    lemma_first_pin_index(pins, id);
}

proof fn lemma_enabled_source(pins: Seq<PinView>, a: int) -> (x: int)
    requires
        0 <= a < enabled_pins(pins).len(),
    ensures
        0 <= x < pins.len(),
        pins[x] == enabled_pins(pins)[a],
    decreases pins.len(),
{
    reveal(Seq::filter);
    let init = pins.drop_last();
    let prev = enabled_pins(init);
    if a < prev.len() {
        assert(enabled_pins(pins)[a] == prev[a]);
        let x = lemma_enabled_source(init, a);
        assert(pins[x] == init[x]);
        x
    } else {
        (pins.len() - 1) as int
    }
}

proof fn lemma_enabled_pair(pins: Seq<PinView>, a: int, b: int) -> (xy: (int, int))
    requires
        0 <= a < b < enabled_pins(pins).len(),
    ensures
        0 <= xy.0 < xy.1 < pins.len(),
        pins[xy.0] == enabled_pins(pins)[a],
        pins[xy.1] == enabled_pins(pins)[b],
    decreases pins.len(),
{
    reveal(Seq::filter);
    let init = pins.drop_last();
    let prev = enabled_pins(init);
    assert(enabled_pins(pins)[a] == prev[a]);
    if b < prev.len() {
        assert(enabled_pins(pins)[b] == prev[b]);
        let (x, y) = lemma_enabled_pair(init, a, b);
        assert(pins[x] == init[x] && pins[y] == init[y]);
        (x, y)
    } else {
        let x = lemma_enabled_source(init, a);
        assert(pins[x] == init[x]);
        (x, (pins.len() - 1) as int)
    }
}

/// `p` occurs in `pins` before an occurrence of `q`.
pub open spec fn comes_before(pins: Seq<PinView>, p: PinView, q: PinView) -> bool {
    exists|x: int, y: int| 0 <= x < y < pins.len() && #[trigger] pins[x] == p && #[trigger] pins[y] == q
}

/// Law: a freeze round writes the enabled pins in list order: of any two of
/// its writes, the earlier one's pin comes earlier in the list.
pub proof fn law_freeze_keeps_pin_order(pins: Seq<PinView>)
    ensures
        forall|a: int, b: int|
            0 <= a < b < enabled_pins(pins).len() ==> comes_before(
                pins,
                #[trigger] enabled_pins(pins)[a],
                #[trigger] enabled_pins(pins)[b],
            ),
{
    assert forall|a: int, b: int| 0 <= a < b < enabled_pins(pins).len() implies comes_before(
        pins,
        #[trigger] enabled_pins(pins)[a],
        #[trigger] enabled_pins(pins)[b],
    ) by {
        let (x, y) = lemma_enabled_pair(pins, a, b);
    }
}

} // verus!
