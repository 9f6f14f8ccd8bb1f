use vstd::prelude::*;

verus! {

/// A memory address candidate from a scan.
#[derive(Clone, Debug)]
pub struct Candidate {
    pub address: u64,
    /// Byte width: 1, 2, 4, or 8.
    pub width: u8,
    /// Raw little-endian bytes of the found value.
    pub value: Vec<u8>,
    pub pinned: bool,
}

/// A candidate seen as plain values.
pub struct CandidateView {
    pub address: u64,
    pub width: u8,
    pub value: Seq<u8>,
    pub pinned: bool,
}

impl View for Candidate {
    type V = CandidateView;

    open spec fn view(&self) -> CandidateView {
        CandidateView {
            address: self.address,
            width: self.width,
            value: self.value@,
            pinned: self.pinned,
        }
    }
}

impl Candidate {
    /// A field-by-field copy.
    pub fn duplicate(&self) -> (out: Candidate)
        ensures
            out@ == self@,
    {
        Candidate {
            address: self.address,
            width: self.width,
            value: vstd::slice::slice_to_vec(self.value.as_slice()),
            pinned: self.pinned,
        }
    }
}

/// The views of a sequence of candidates.
pub open spec fn candidate_views(cs: Seq<Candidate>) -> Seq<CandidateView> {
    cs.map_values(|c: Candidate| c@)
}

/// Copies every candidate of `cs`, in order.
pub fn duplicate_candidates(cs: &Vec<Candidate>) -> (out: Vec<Candidate>)
    ensures
        candidate_views(out@) == candidate_views(cs@),
{
    let mut out: Vec<Candidate> = Vec::new();
    let mut i: usize = 0;
    while i < cs.len()
        invariant
            i <= cs@.len(),
            out@.len() == i,
            forall|k: int| 0 <= k < i ==> #[trigger] out@[k]@ == cs@[k]@,
        decreases cs@.len() - i,
    {
        out.push(cs[i].duplicate());
        i = i + 1;
    }
    assert(candidate_views(out@) == candidate_views(cs@));
    out
}

/// A frozen/pinned memory entry.
#[derive(Clone, Debug)]
pub struct Pin {
    pub id: u64,
    pub address: u64,
    pub width: u8,
    /// Value to repeatedly write.
    pub value: Vec<u8>,
    pub enabled: bool,
}

/// A pin seen as plain values.
pub struct PinView {
    pub id: u64,
    pub address: u64,
    pub width: u8,
    pub value: Seq<u8>,
    pub enabled: bool,
}

impl View for Pin {
    type V = PinView;

    open spec fn view(&self) -> PinView {
        PinView {
            id: self.id,
            address: self.address,
            width: self.width,
            value: self.value@,
            enabled: self.enabled,
        }
    }
}

impl Pin {
    /// A field-by-field copy.
    pub fn duplicate(&self) -> (out: Pin)
        ensures
            out@ == self@,
    {
        Pin {
            id: self.id,
            address: self.address,
            width: self.width,
            value: vstd::slice::slice_to_vec(self.value.as_slice()),
            enabled: self.enabled,
        }
    }
}

/// The views of a sequence of pins.
pub open spec fn pin_views(ps: Seq<Pin>) -> Seq<PinView> {
    ps.map_values(|p: Pin| p@)
}

/// Commands sent from the UI thread to the worker thread.
#[derive(Debug)]
pub enum WorkerCmd {
    /// Attach to a process by PID.
    Attach(u32),
    /// Full memory scan for the given little-endian byte pattern.
    Scan(Vec<u8>),
    /// Re-scan existing candidates for a new value.
    Rescan(Vec<u8>),
    /// Write bytes to an address.
    Write { address: u64, value: Vec<u8> },
    /// Add a pin to the freeze list.
    PinAdd(Pin),
    /// Remove a pin by ID.
    PinRemove(u64),
    /// Toggle a pin's enabled state by ID.
    PinToggle(u64),
}

/// Results sent back from the worker thread to the UI.
#[derive(Debug)]
pub enum WorkerResult {
    Attached(u32),
    AttachFailed(String),
    ScanComplete(Vec<Candidate>),
    ScanError(String),
    WriteOk,
    WriteErr(String),
}

} // verus!
