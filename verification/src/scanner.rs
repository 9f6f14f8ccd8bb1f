use vstd::prelude::*;
use crate::memory::MemRegion;
use crate::types::{Candidate, CandidateView, candidate_views};
use vstd::arithmetic::div_mod::{lemma_breakdown, lemma_div_denominator, lemma_fundamental_div_mod_converse};
use vstd::arithmetic::power2::{lemma2_to64, lemma_pow2_adds, pow2};

verus! {

/// `256^n`.
pub open spec fn pow256(n: nat) -> nat
    decreases n,
{
    if n == 0 {
        1
    } else {
        256 * pow256((n - 1) as nat)
    }
}

/// The `n` little-endian bytes of `v`; digits above `256^n` are dropped.
pub open spec fn le_bytes(v: nat, n: nat) -> Seq<u8>
    decreases n,
{
    if n == 0 {
        Seq::empty()
    } else {
        seq![(v % 256) as u8] + le_bytes(v / 256, (n - 1) as nat)
    }
}

/// The number that the bytes `s` denote when read little-endian.
pub open spec fn le_value(s: Seq<u8>) -> nat
    decreases s.len(),
{
    if s.len() == 0 {
        0
    } else {
        s[0] as nat + 256 * le_value(s.drop_first())
    }
}

/// The byte widths a scan supports.
pub open spec fn is_scan_width(width: u8) -> bool {
    width == 1 || width == 2 || width == 4 || width == 8
}

/// What `encode_value` returns.
pub open spec fn spec_encode(val: u64, width: u8) -> Seq<u8> {
    if is_scan_width(width) {
        le_bytes(val as nat, width as nat)
    } else {
        Seq::empty()
    }
}

/// The prefix of at most eight bytes that `decode_value` reads.
pub open spec fn decoded_prefix(bytes: Seq<u8>) -> Seq<u8> {
    if bytes.len() <= 8 {
        bytes
    } else {
        bytes.take(8)
    }
}

/// What `decode_value` returns.
pub open spec fn spec_decode(bytes: Seq<u8>) -> nat {
    le_value(decoded_prefix(bytes))
}

pub proof fn lemma_pow256_positive(n: nat)
    ensures
        pow256(n) >= 1,
    decreases n,
{
    if n > 0 {
        lemma_pow256_positive((n - 1) as nat);
    }
}

pub proof fn lemma_pow256_eight()
    ensures
        pow256(8) == 0x1_0000_0000_0000_0000,
{
    reveal_with_fuel(pow256, 9);
}

pub proof fn lemma_le_bytes_len(v: nat, n: nat)
    ensures
        le_bytes(v, n).len() == n,
    decreases n,
{
    if n > 0 {
        lemma_le_bytes_len(v / 256, (n - 1) as nat);
    }
}

pub proof fn lemma_le_value_bound(s: Seq<u8>)
    ensures
        le_value(s) < pow256(s.len()),
    decreases s.len(),
{
    if s.len() > 0 {
        lemma_le_value_bound(s.drop_first());
    }
}

/// Encode `val` as little-endian bytes of the given width (1/2/4/8).
pub fn encode_value(val: u64, width: u8) -> (out: Vec<u8>)
    ensures
        out@ == spec_encode(val, width),
        out@.len() == if is_scan_width(width) { width as nat } else { 0 },
{
    let mut out: Vec<u8> = Vec::new();
    if !(width == 1 || width == 2 || width == 4 || width == 8) {
        return out;
    }
    let mut cur: u64 = val;
    let mut i: u8 = 0;
    while i < width
        invariant
            i <= width,
            is_scan_width(width),
            out@ + le_bytes(cur as nat, (width - i) as nat) == le_bytes(val as nat, width as nat),
        decreases width - i,
    {
        let b: u8 = (cur % 256) as u8;
        let ghost old_out = out@;
        let ghost old_cur = cur;
        out.push(b);
        cur = cur / 256;
        i = i + 1;
        assert(le_bytes(old_cur as nat, (width - (i - 1)) as nat) == seq![b] + le_bytes(
            cur as nat,
            (width - i) as nat,
        ));
        assert(out@ + le_bytes(cur as nat, (width - i) as nat) == old_out + (seq![b] + le_bytes(
            cur as nat,
            (width - i) as nat,
        )));
    }
    assert(out@ + le_bytes(cur as nat, 0) == out@);
    proof {
        lemma_le_bytes_len(val as nat, width as nat);
    }
    out
}


proof fn lemma_le_value_step(s: Seq<u8>, i: int, n: int)
    requires
        0 < i <= n <= s.len(),
    ensures
        le_value(s.subrange(i - 1, n)) == s[i - 1] as nat + 256 * le_value(s.subrange(i, n)),
{
    assert(s.subrange(i - 1, n).drop_first() == s.subrange(i, n));
}

/// Decode little-endian bytes into a u64 display value.
pub fn decode_value(bytes: &[u8]) -> (out: u64)
    ensures
        out as nat == spec_decode(bytes@),
{
    let n: usize = if bytes.len() < 8 { bytes.len() } else { 8 };
    let ghost pre = decoded_prefix(bytes@);
    assert(pre == bytes@.subrange(0, n as int));
    let mut acc: u64 = 0;
    let mut i: usize = n;
    while i > 0
        invariant
            i <= n <= 8,
            n <= bytes@.len(),
            acc as nat == le_value(bytes@.subrange(i as int, n as int)),
        decreases i,
    {
        proof {
            lemma_le_value_step(bytes@, i as int, n as int);
            lemma_le_value_bound(bytes@.subrange(i as int - 1, n as int));
            lemma_pow256_mono((n - i + 1) as nat, 8);
            lemma_pow256_eight();
        }
        let b: u8 = bytes[i - 1];
        acc = acc * 256 + b as u64;
        i = i - 1;
    }
    acc
}

pub proof fn lemma_pow256_mono(a: nat, b: nat)
    requires
        a <= b,
    ensures
        pow256(a) <= pow256(b),
    decreases b,
{
    if a < b {
        lemma_pow256_mono(a, (b - 1) as nat);
        lemma_pow256_positive((b - 1) as nat);
    }
}


/// Reading back the bytes of `v` gives `v` with the digits above `256^n` dropped.
pub proof fn lemma_le_value_of_le_bytes(v: nat, n: nat)
    ensures
        le_value(le_bytes(v, n)) == v % pow256(n),
    decreases n,
{
    if n == 0 {
        assert(le_bytes(v, n).len() == 0);
    } else {
        let m = (n - 1) as nat;
        lemma_le_value_of_le_bytes(v / 256, m);
        lemma_pow256_positive(m);
        let s = le_bytes(v, n);
        assert(s.drop_first() == le_bytes(v / 256, m));
        lemma_breakdown(v as int, 256, pow256(m) as int);
    }
}

/// Writing out the value of `s` in `s.len()` bytes gives `s` back.
pub proof fn lemma_le_bytes_of_le_value(s: Seq<u8>)
    ensures
        le_bytes(le_value(s), s.len()) == s,
    decreases s.len(),
{
    if s.len() > 0 {
        let rest = s.drop_first();
        lemma_le_bytes_of_le_value(rest);
        let v = le_value(s);
        lemma_fundamental_div_mod_converse(v as int, 256, le_value(rest) as int, s[0] as int);
        assert(le_bytes(v, s.len()) == seq![s[0]] + le_bytes(le_value(rest), rest.len()));
        assert(seq![s[0]] + rest == s);
    }
}

/// Law: decoding what `encode_value` wrote at a supported width gives the value
/// back, reduced to that width; a value that fits the width comes back whole.
pub proof fn law_decode_encode(val: u64, width: u8)
    requires
        is_scan_width(width),
    ensures
        spec_decode(spec_encode(val, width)) == val as nat % pow256(width as nat),
        (val as nat) < pow256(width as nat) ==> spec_decode(spec_encode(val, width)) == val as nat,
{
    lemma_le_bytes_len(val as nat, width as nat);
    lemma_le_value_of_le_bytes(val as nat, width as nat);
    lemma_pow256_positive(width as nat);
    if (val as nat) < pow256(width as nat) {
        vstd::arithmetic::div_mod::lemma_small_mod(val as nat, pow256(width as nat));
    }
}

/// Law: encoding the decoded value of a byte pattern of a supported width, at
/// that width, gives the same bytes.
pub proof fn law_encode_decode(bytes: Seq<u8>)
    requires
        bytes.len() == 1 || bytes.len() == 2 || bytes.len() == 4 || bytes.len() == 8,
    ensures
        spec_decode(bytes) < 0x1_0000_0000_0000_0000,
        spec_encode(spec_decode(bytes) as u64, bytes.len() as u8) == bytes,
{
    lemma_le_value_bound(bytes);
    lemma_pow256_mono(bytes.len(), 8);
    lemma_pow256_eight();
    lemma_le_bytes_of_le_value(bytes);
}

/// Law: bytes past the eighth never change the decoded value.
pub proof fn law_decode_ignores_tail(bytes: Seq<u8>, extra: Seq<u8>)
    requires
        bytes.len() >= 8,
    ensures
        spec_decode(bytes + extra) == spec_decode(bytes),
{
    assert((bytes + extra).take(8) == bytes.take(8));
    if bytes.len() == 8 {
        assert(bytes.take(8) == bytes);
    }
}


/// `target` occurs in `data` at offset `i`.
pub open spec fn matches_at(data: Seq<u8>, target: Seq<u8>, i: int) -> bool {
    0 <= i && i + target.len() <= data.len() && data.subrange(i, i + target.len()) == target
}

/// The offsets below `n` at which `target` occurs in `data`, in increasing order.
pub open spec fn match_offsets(data: Seq<u8>, target: Seq<u8>, n: nat) -> Seq<nat>
    decreases n,
{
    if n == 0 {
        Seq::empty()
    } else {
        let prev = match_offsets(data, target, (n - 1) as nat);
        if matches_at(data, target, n - 1) {
            prev.push((n - 1) as nat)
        } else {
            prev
        }
    }
}

/// The addresses `base + i` of the occurrences of a non-empty `target` in `data`,
/// in increasing order; none for an empty `target`.
pub open spec fn spec_search(data: Seq<u8>, target: Seq<u8>, base: u64) -> Seq<u64> {
    if target.len() == 0 {
        Seq::empty()
    } else {
        match_offsets(data, target, data.len()).map_values(|i: nat| (base + i) as u64)
    }
}

/// Every address that the search would report fits in a `u64`.
pub open spec fn search_addresses_fit(data: Seq<u8>, target: Seq<u8>, base: u64) -> bool {
    target.len() > 0 ==> forall|i: int| #[trigger] matches_at(data, target, i) ==> base + i <= u64::MAX
}

fn bytes_match_at(data: &[u8], target: &[u8], i: usize) -> (r: bool)
    requires
        i + target@.len() <= data@.len(),
    ensures
        r == matches_at(data@, target@, i as int),
{
    let n = target.len();
    let dl = data.len();
    let mut j: usize = 0;
    while j < n
        invariant
            j <= n == target@.len(),
            dl == data@.len(),
            i + n <= data@.len(),
            forall|k: int| 0 <= k < j ==> data@[i + k] == target@[k],
        decreases n - j,
    {
        if data[i + j] != target[j] {
            assert(data@.subrange(i as int, i + n)[j as int] != target@[j as int]);
            return false;
        }
        j = j + 1;
    }
    assert(data@.subrange(i as int, i + n) == target@);
    true
}

/// Whether every address that searching `data` for `target` would report fits
/// in a `u64`.
pub fn addresses_fit(data: &[u8], target: &[u8], base_addr: u64) -> (r: bool)
    ensures
        r == search_addresses_fit(data@, target@, base_addr),
{
    if target.len() == 0 || data.len() < target.len() {
        return true;
    }
    let limit: usize = data.len() - target.len();
    let room: u64 = u64::MAX - base_addr;
    if limit as u64 <= room {
        return true;
    }
    let mut i: usize = room as usize + 1;
    while i <= limit
        invariant
            limit == data@.len() - target@.len(),
            limit < usize::MAX,
            target@.len() > 0,
            room == u64::MAX - base_addr,
            room < limit,
            room + 1 <= i <= limit + 1,
            forall|k: int| room < k < i ==> !matches_at(data@, target@, k),
        decreases limit + 1 - i,
    {
        if bytes_match_at(data, target, i) {
            return false;
        }
        i = i + 1;
    }
    true
}

/// Search `data` for all occurrences of `target`, returning offsets relative to `base_addr`.
pub fn search_buffer(data: &[u8], target: &[u8], base_addr: u64) -> (out: Vec<u64>)
    requires
        search_addresses_fit(data@, target@, base_addr),
    ensures
        out@ == spec_search(data@, target@, base_addr),
        target@.len() > 0 ==> forall|i: int|
            0 <= i && i + target@.len() <= data@.len() && #[trigger] data@.subrange(
                i,
                i + target@.len(),
            ) == target@ ==> out@.contains((base_addr + i) as u64),
        forall|k: int|
            0 <= k < out@.len() ==> base_addr <= #[trigger] out@[k] && out@[k] - base_addr
                + target@.len() <= data@.len() && data@.subrange(
                out@[k] - base_addr,
                out@[k] - base_addr + target@.len(),
            ) == target@,
        forall|a: int, b: int| 0 <= a < b < out@.len() ==> out@[a] < out@[b],
{
    let mut out: Vec<u64> = Vec::new();
    if target.len() == 0 || data.len() < target.len() {
        proof {
            if target@.len() > 0 {
                lemma_no_offsets_when_short(data@, target@, data@.len());
                assert(spec_search(data@, target@, base_addr) == Seq::<u64>::empty());
                law_search_complete_and_sound(data@, target@, base_addr);
            }
        }
        return out;
    }
    let limit: usize = data.len() - target.len();
    let mut i: usize = 0;
    while i <= limit
        invariant
            limit == data@.len() - target@.len(),
            limit < usize::MAX,
            target@.len() > 0,
            i <= limit + 1,
            search_addresses_fit(data@, target@, base_addr),
            out@ == match_offsets(data@, target@, i as nat).map_values(|k: nat| (base_addr + k) as u64),
        decreases limit + 1 - i,
    {
        let ghost prev = match_offsets(data@, target@, i as nat);
        if bytes_match_at(data, target, i) {
            assert(base_addr + i <= u64::MAX);
            out.push(base_addr + i as u64);
            assert(match_offsets(data@, target@, (i + 1) as nat) == prev.push(i as nat));
            assert(out@ == prev.push(i as nat).map_values(|k: nat| (base_addr + k) as u64));
        } else {
            assert(match_offsets(data@, target@, (i + 1) as nat) == prev);
        }
        i = i + 1;
    }
    proof {
        lemma_offsets_past_end(data@, target@, i as nat, data@.len());
        law_search_complete_and_sound(data@, target@, base_addr);
    }
    out
}

proof fn lemma_no_offsets_when_short(data: Seq<u8>, target: Seq<u8>, n: nat)
    requires
        data.len() < target.len(),
    ensures
        match_offsets(data, target, n) == Seq::<nat>::empty(),
    decreases n,
{
    if n > 0 {
        lemma_no_offsets_when_short(data, target, (n - 1) as nat);
    }
}

proof fn lemma_offsets_past_end(data: Seq<u8>, target: Seq<u8>, m: nat, n: nat)
    requires
        target.len() > 0,
        data.len() - target.len() + 1 <= m <= n,
    ensures
        match_offsets(data, target, n) == match_offsets(data, target, m),
    decreases n,
{
    if n > m {
        lemma_offsets_past_end(data, target, m, (n - 1) as nat);
    }
}


proof fn lemma_match_offsets_facts(data: Seq<u8>, target: Seq<u8>, n: nat)
    ensures
        forall|k: int|
            0 <= k < match_offsets(data, target, n).len() ==> matches_at(
                data,
                target,
                #[trigger] match_offsets(data, target, n)[k] as int,
            ) && match_offsets(data, target, n)[k] < n,
        forall|i: int|
            0 <= i < n && #[trigger] matches_at(data, target, i) ==> match_offsets(
                data,
                target,
                n,
            ).contains(i as nat),
        forall|a: int, b: int|
            0 <= a < b < match_offsets(data, target, n).len() ==> match_offsets(data, target, n)[a]
                < match_offsets(data, target, n)[b],
    decreases n,
{
    if n > 0 {
        let m = (n - 1) as nat;
        lemma_match_offsets_facts(data, target, m);
        let prev = match_offsets(data, target, m);
        if matches_at(data, target, m as int) {
            let cur = prev.push(m);
            assert(match_offsets(data, target, n) == cur);
            assert forall|i: int|
                0 <= i < n && #[trigger] matches_at(data, target, i) implies cur.contains(
                i as nat,
            ) by {
                if i == m {
                    assert(cur[prev.len() as int] == m);
                } else {
                    let k = choose|k: int| 0 <= k < prev.len() && prev[k] == i as nat;
                    assert(cur[k] == i as nat);
                }
            }
        }
    }
}

/// Law: a search for a non-empty pattern reports, in strictly increasing order,
/// `base + i` for exactly the offsets `i` at which the pattern occurs.
pub proof fn law_search_reports_exactly_the_matches(data: Seq<u8>, target: Seq<u8>, base: u64)
    requires
        target.len() > 0,
        search_addresses_fit(data, target, base),
    ensures
        forall|k: int|
            0 <= k < spec_search(data, target, base).len() ==> base <= #[trigger] spec_search(
                data,
                target,
                base,
            )[k] && matches_at(data, target, spec_search(data, target, base)[k] - base),
        forall|i: int|
            #[trigger] matches_at(data, target, i) ==> spec_search(data, target, base).contains(
                (base + i) as u64,
            ),
        forall|a: int, b: int|
            0 <= a < b < spec_search(data, target, base).len() ==> spec_search(data, target, base)[a]
                < spec_search(data, target, base)[b],
{
    let offs = match_offsets(data, target, data.len());
    let out = spec_search(data, target, base);
    lemma_match_offsets_facts(data, target, data.len());
    assert forall|k: int| 0 <= k < out.len() implies base <= #[trigger] out[k] && matches_at(
        data,
        target,
        out[k] - base,
    ) by {
        assert(matches_at(data, target, offs[k] as int));
        assert(out[k] == base + offs[k]);
    }
    assert forall|i: int| #[trigger] matches_at(data, target, i) implies out.contains(
        (base + i) as u64,
    ) by {
        assert(offs.contains(i as nat));
        let k = choose|k: int| 0 <= k < offs.len() && offs[k] == i as nat;
        assert(out[k] == (base + i) as u64);
    }
    assert forall|a: int, b: int| 0 <= a < b < out.len() implies out[a] < out[b] by {
        assert(matches_at(data, target, offs[a] as int));
        assert(matches_at(data, target, offs[b] as int));
    }
}


/// The candidate that a scan for `target` records at `address`.
pub open spec fn found_candidate(address: u64, target: Seq<u8>) -> CandidateView {
    CandidateView { address, width: target.len() as u8, value: target, pinned: false }
}

/// The candidates that one region contributes: one per occurrence of `target`
/// in what was read of it, none where nothing could be read.
pub open spec fn region_candidates(base: u64, content: Option<Vec<u8>>, target: Seq<u8>) -> Seq<
    CandidateView,
> {
    match content {
        Some(d) => spec_search(d@, target, base).map_values(|a: u64| found_candidate(a, target)),
        None => Seq::empty(),
    }
}

/// The candidates of the first `n` regions, region after region.
pub open spec fn scan_upto(
    regions: Seq<MemRegion>,
    contents: Seq<Option<Vec<u8>>>,
    target: Seq<u8>,
    n: nat,
) -> Seq<CandidateView>
    decreases n,
{
    if n == 0 {
        Seq::empty()
    } else {
        scan_upto(regions, contents, target, (n - 1) as nat) + region_candidates(
            regions[n - 1].base,
            contents[n - 1],
            target,
        )
    }
}

/// What `full_scan` returns.
pub open spec fn spec_full_scan(
    regions: Seq<MemRegion>,
    contents: Seq<Option<Vec<u8>>>,
    target: Seq<u8>,
) -> Seq<CandidateView> {
    scan_upto(regions, contents, target, regions.len())
}

/// Every region's search reports only addresses that fit in a `u64`.
pub open spec fn scan_addresses_fit(
    regions: Seq<MemRegion>,
    contents: Seq<Option<Vec<u8>>>,
    target: Seq<u8>,
) -> bool {
    forall|k: int|
        0 <= k < regions.len() && (#[trigger] contents[k]) is Some ==> search_addresses_fit(
            contents[k]->0@,
            target,
            regions[k].base,
        )
}

/// Full scan: `contents[k]` is what could be read of `regions[k]` (`None` where
/// the read failed); collect a candidate for every occurrence of `target`.
pub fn full_scan(regions: &[MemRegion], contents: &[Option<Vec<u8>>], target: &[u8]) -> (out: Vec<
    Candidate,
>)
    requires
        regions@.len() == contents@.len(),
        scan_addresses_fit(regions@, contents@, target@),
    ensures
        candidate_views(out@) == spec_full_scan(regions@, contents@, target@),
{
    let width: u8 = target.len() as u8;
    let mut out: Vec<Candidate> = Vec::new();
    let mut k: usize = 0;
    while k < regions.len()
        invariant
            k <= regions@.len() == contents@.len(),
            width == target@.len() as u8,
            scan_addresses_fit(regions@, contents@, target@),
            candidate_views(out@) == scan_upto(regions@, contents@, target@, k as nat),
        decreases regions@.len() - k,
    {
        let ghost before = candidate_views(out@);
        let base = regions[k].base;
        match &contents[k] {
            Some(data) => {
                assert(contents@[k as int] is Some);
                let addrs = search_buffer(data.as_slice(), target, base);
                let ghost found = addrs@.map_values(|a: u64| found_candidate(a, target@));
                let mut j: usize = 0;
                while j < addrs.len()
                    invariant
                        j <= addrs@.len(),
                        width == target@.len() as u8,
                        found == addrs@.map_values(|a: u64| found_candidate(a, target@)),
                        candidate_views(out@) == before + found.take(j as int),
                    decreases addrs@.len() - j,
                {
                    let c = Candidate {
                        address: addrs[j],
                        width,
                        value: vstd::slice::slice_to_vec(target),
                        pinned: false,
                    };
                    let ghost prev = out@;
                    out.push(c);
                    assert(found.take(j + 1) == found.take(j as int).push(found[j as int]));
                    assert(candidate_views(out@) == candidate_views(prev).push(c@));
                    j = j + 1;
                }
                assert(found.take(j as int) == found);
            },
            None => {
                assert(region_candidates(base, contents@[k as int], target@) == Seq::<
                    CandidateView,
                >::empty());
                assert(before + Seq::<CandidateView>::empty() == before);
            },
        }
        k = k + 1;
    }
    out
}


/// What a re-scan keeps of candidate `c` given what was read at its address:
/// the candidate with the bytes read, if they are exactly `target`.
pub open spec fn rescanned(c: CandidateView, read: Option<Vec<u8>>, target: Seq<u8>) -> Seq<
    CandidateView,
> {
    match read {
        Some(d) => if d@ == target {
            seq![
                CandidateView {
                    address: c.address,
                    width: target.len() as u8,
                    value: d@,
                    pinned: c.pinned,
                },
            ]
        } else {
            Seq::empty()
        },
        None => Seq::empty(),
    }
}

/// What a re-scan keeps of the first `n` candidates, in order.
pub open spec fn filter_upto(
    candidates: Seq<CandidateView>,
    reads: Seq<Option<Vec<u8>>>,
    target: Seq<u8>,
    n: nat,
) -> Seq<CandidateView>
    decreases n,
{
    if n == 0 {
        Seq::empty()
    } else {
        filter_upto(candidates, reads, target, (n - 1) as nat) + rescanned(
            candidates[n - 1],
            reads[n - 1],
            target,
        )
    }
}

/// What `filter_scan` returns.
pub open spec fn spec_filter_scan(
    candidates: Seq<CandidateView>,
    reads: Seq<Option<Vec<u8>>>,
    target: Seq<u8>,
) -> Seq<CandidateView> {
    filter_upto(candidates, reads, target, candidates.len())
}

/// Whether two byte slices hold the same bytes.
pub fn bytes_equal(a: &[u8], b: &[u8]) -> (r: bool)
    ensures
        r == (a@ == b@),
{
    if a.len() != b.len() {
        return false;
    }
    let mut i: usize = 0;
    while i < a.len()
        invariant
            i <= a@.len() == b@.len(),
            forall|k: int| 0 <= k < i ==> a@[k] == b@[k],
        decreases a@.len() - i,
    {
        if a[i] != b[i] {
            return false;
        }
        i = i + 1;
    }
    assert(a@ == b@);
    true
}

/// Re-scan: `reads[k]` is what was read at `candidates[k]`'s address (`None`
/// where the read failed); keep only the candidates whose bytes now equal `target`.
pub fn filter_scan(candidates: &[Candidate], reads: &[Option<Vec<u8>>], target: &[u8]) -> (out: Vec<
    Candidate,
>)
    requires
        candidates@.len() == reads@.len(),
    ensures
        candidate_views(out@) == spec_filter_scan(candidate_views(candidates@), reads@, target@),
{
    let width: u8 = target.len() as u8;
    let ghost cv = candidate_views(candidates@);
    let mut out: Vec<Candidate> = Vec::new();
    let mut k: usize = 0;
    while k < candidates.len()
        invariant
            k <= candidates@.len() == reads@.len(),
            cv == candidate_views(candidates@),
            width == target@.len() as u8,
            candidate_views(out@) == filter_upto(cv, reads@, target@, k as nat),
        decreases candidates@.len() - k,
    {
        let ghost before = candidate_views(out@);
        let c = &candidates[k];
        assert(cv[k as int] == c@);
        match &reads[k] {
            Some(data) => {
                if bytes_equal(data.as_slice(), target) {
                    let kept = Candidate {
                        address: c.address,
                        width,
                        value: vstd::slice::slice_to_vec(data.as_slice()),
                        pinned: c.pinned,
                    };
                    out.push(kept);
                    assert(candidate_views(out@) == before.push(kept@));
                } else {
                    assert(before + Seq::<CandidateView>::empty() == before);
                }
            },
            None => {
                assert(before + Seq::<CandidateView>::empty() == before);
            },
        }
        k = k + 1;
    }
    out
}

proof fn lemma_scan_upto_prefix(
    r1: Seq<MemRegion>,
    c1: Seq<Option<Vec<u8>>>,
    r2: Seq<MemRegion>,
    c2: Seq<Option<Vec<u8>>>,
    target: Seq<u8>,
    m: nat,
)
    requires
        r1.len() == c1.len(),
        m <= r1.len(),
    ensures
        scan_upto(r1 + r2, c1 + c2, target, m) == scan_upto(r1, c1, target, m),
    decreases m,
{
    if m > 0 {
        lemma_scan_upto_prefix(r1, c1, r2, c2, target, (m - 1) as nat);
        assert((r1 + r2)[m - 1] == r1[m - 1]);
        assert((c1 + c2)[m - 1] == c1[m - 1]);
    }
}

proof fn lemma_scan_upto_suffix(
    r1: Seq<MemRegion>,
    c1: Seq<Option<Vec<u8>>>,
    r2: Seq<MemRegion>,
    c2: Seq<Option<Vec<u8>>>,
    target: Seq<u8>,
    k: nat,
)
    requires
        r1.len() == c1.len(),
        r2.len() == c2.len(),
        k <= r2.len(),
    ensures
        scan_upto(r1 + r2, c1 + c2, target, r1.len() + k) == scan_upto(r1, c1, target, r1.len())
            + scan_upto(r2, c2, target, k),
    decreases k,
{
    if k == 0 {
        lemma_scan_upto_prefix(r1, c1, r2, c2, target, r1.len());
        assert(scan_upto(r1, c1, target, r1.len()) + Seq::<CandidateView>::empty() == scan_upto(
            r1,
            c1,
            target,
            r1.len(),
        ));
    } else {
        lemma_scan_upto_suffix(r1, c1, r2, c2, target, (k - 1) as nat);
        let n = r1.len() + k;
        assert((r1 + r2)[n - 1] == r2[k - 1]);
        assert((c1 + c2)[n - 1] == c2[k - 1]);
        let a = scan_upto(r1, c1, target, r1.len());
        let b = scan_upto(r2, c2, target, (k - 1) as nat);
        let x = region_candidates(r2[k - 1].base, c2[k - 1], target);
        assert(a + b + x == a + (b + x));
    }
}

/// Law: scanning two lists of regions one after the other gives the same
/// candidates as scanning the joined list at once.
pub proof fn law_full_scan_concat(
    r1: Seq<MemRegion>,
    c1: Seq<Option<Vec<u8>>>,
    r2: Seq<MemRegion>,
    c2: Seq<Option<Vec<u8>>>,
    target: Seq<u8>,
)
    requires
        r1.len() == c1.len(),
        r2.len() == c2.len(),
    ensures
        spec_full_scan(r1 + r2, c1 + c2, target) == spec_full_scan(r1, c1, target) + spec_full_scan(
            r2,
            c2,
            target,
        ),
{
    lemma_scan_upto_suffix(r1, c1, r2, c2, target, r2.len());
}

proof fn lemma_scan_upto_found(
    regions: Seq<MemRegion>,
    contents: Seq<Option<Vec<u8>>>,
    target: Seq<u8>,
    n: nat,
)
    ensures
        forall|i: int|
            0 <= i < scan_upto(regions, contents, target, n).len() ==> {
                let c = #[trigger] scan_upto(regions, contents, target, n)[i];
                c.value == target && c.width == target.len() as u8 && !c.pinned
            },
    decreases n,
{
    if n > 0 {
        let m = (n - 1) as nat;
        lemma_scan_upto_found(regions, contents, target, m);
        let prev = scan_upto(regions, contents, target, m);
        let x = region_candidates(regions[m as int].base, contents[m as int], target);
        let cur = scan_upto(regions, contents, target, n);
        assert forall|i: int| 0 <= i < cur.len() implies {
            let c = #[trigger] cur[i];
            c.value == target && c.width == target.len() as u8 && !c.pinned
        } by {
            if i >= prev.len() {
                assert(cur[i] == x[i - prev.len()]);
            } else {
                assert(cur[i] == prev[i]);
            }
        }
    }
}

/// Law: every candidate of a full scan holds the scanned bytes, has their
/// length as width and is not pinned.
pub proof fn law_full_scan_candidates_hold_target(
    regions: Seq<MemRegion>,
    contents: Seq<Option<Vec<u8>>>,
    target: Seq<u8>,
)
    ensures
        forall|i: int|
            0 <= i < spec_full_scan(regions, contents, target).len() ==> {
                let c = #[trigger] spec_full_scan(regions, contents, target)[i];
                c.value == target && c.width == target.len() as u8 && !c.pinned
            },
{
    lemma_scan_upto_found(regions, contents, target, regions.len());
}

proof fn lemma_filter_upto_narrows(
    candidates: Seq<CandidateView>,
    reads: Seq<Option<Vec<u8>>>,
    target: Seq<u8>,
    n: nat,
)
    requires
        n <= candidates.len(),
    ensures
        filter_upto(candidates, reads, target, n).len() <= n,
        forall|i: int|
            0 <= i < filter_upto(candidates, reads, target, n).len() ==> {
                let c = #[trigger] filter_upto(candidates, reads, target, n)[i];
                &&& c.value == target
                &&& c.width == target.len() as u8
                &&& exists|j: int|
                    0 <= j < n && candidates[j].address == c.address && candidates[j].pinned
                        == c.pinned && (#[trigger] reads[j] matches Some(d) && d@ == target)
            },
    decreases n,
{
    if n > 0 {
        let m = (n - 1) as nat;
        lemma_filter_upto_narrows(candidates, reads, target, m);
        let prev = filter_upto(candidates, reads, target, m);
        let cur = filter_upto(candidates, reads, target, n);
        assert forall|i: int| 0 <= i < cur.len() implies {
            let c = #[trigger] cur[i];
            &&& c.value == target
            &&& c.width == target.len() as u8
            &&& exists|j: int|
                0 <= j < n && candidates[j].address == c.address && candidates[j].pinned == c.pinned
                    && (#[trigger] reads[j] matches Some(d) && d@ == target)
        } by {
            if i < prev.len() {
                assert(cur[i] == prev[i]);
                let c = prev[i];
                let j = choose|j: int|
                    0 <= j < m && candidates[j].address == c.address && candidates[j].pinned
                        == c.pinned && (#[trigger] reads[j] matches Some(d) && d@ == target);
                assert(0 <= j < n);
            } else {
                assert(cur[i] == rescanned(candidates[m as int], reads[m as int], target)[0]);
                assert(candidates[m as int].address == cur[i].address);
                assert(reads[m as int] matches Some(d) && d@ == target);
            }
        }
    }
}

/// Law: a re-scan only narrows: it keeps no more candidates than it was given,
/// each kept one sits at the address of a given one with its pin mark, and
/// holds exactly the bytes scanned for.
pub proof fn law_rescan_narrows(
    candidates: Seq<CandidateView>,
    reads: Seq<Option<Vec<u8>>>,
    target: Seq<u8>,
)
    ensures
        spec_filter_scan(candidates, reads, target).len() <= candidates.len(),
        forall|i: int|
            0 <= i < spec_filter_scan(candidates, reads, target).len() ==> {
                let c = #[trigger] spec_filter_scan(candidates, reads, target)[i];
                &&& c.value == target
                &&& c.width == target.len() as u8
                &&& exists|j: int|
                    0 <= j < candidates.len() && candidates[j].address == c.address
                        && candidates[j].pinned == c.pinned
            },
{
    lemma_filter_upto_narrows(candidates, reads, target, candidates.len());
    let r = spec_filter_scan(candidates, reads, target);
    assert forall|i: int| 0 <= i < r.len() implies exists|j: int|
        0 <= j < candidates.len() && candidates[j].address == (#[trigger] r[i]).address
            && candidates[j].pinned == r[i].pinned by {
        let j = choose|j: int|
            0 <= j < candidates.len() && candidates[j].address == r[i].address && candidates[j].pinned
                == r[i].pinned && (#[trigger] reads[j] matches Some(d) && d@ == target);
    }
}


proof fn lemma_filter_upto_keeps_all(
    candidates: Seq<CandidateView>,
    reads: Seq<Option<Vec<u8>>>,
    target: Seq<u8>,
    n: nat,
)
    requires
        n <= candidates.len(),
        forall|k: int|
            0 <= k < candidates.len() ==> {
                &&& (#[trigger] candidates[k]).value == target
                &&& candidates[k].width == target.len() as u8
                &&& reads[k] matches Some(d) && d@ == target
            },
    ensures
        filter_upto(candidates, reads, target, n) == candidates.take(n as int),
    decreases n,
{
    if n > 0 {
        let m = (n - 1) as nat;
        lemma_filter_upto_keeps_all(candidates, reads, target, m);
        let c = candidates[m as int];
        assert(rescanned(c, reads[m as int], target) == seq![c]);
        assert(candidates.take(n as int) == candidates.take(m as int).push(c));
    }
}

/// Law: re-scanning candidates that hold the scanned bytes (as those of a
/// scan for the same bytes do) over memory that still holds them keeps every
/// candidate unchanged.
pub proof fn law_rescan_of_unchanged_memory_keeps_all(
    candidates: Seq<CandidateView>,
    reads: Seq<Option<Vec<u8>>>,
    target: Seq<u8>,
)
    requires
        candidates.len() == reads.len(),
        forall|k: int|
            0 <= k < candidates.len() ==> {
                &&& (#[trigger] candidates[k]).value == target
                &&& candidates[k].width == target.len() as u8
                &&& reads[k] matches Some(d) && d@ == target
            },
    ensures
        spec_filter_scan(candidates, reads, target) == candidates,
{
    lemma_filter_upto_keeps_all(candidates, reads, target, candidates.len());
    assert(candidates.take(candidates.len() as int) == candidates);
}


/// A read agrees with what memory holds: both nothing, or the same bytes.
pub open spec fn read_agrees(held: Option<Seq<u8>>, read: Option<Vec<u8>>) -> bool {
    match (held, read) {
        (None, None) => true,
        (Some(s), Some(d)) => d@ == s,
        _ => false,
    }
}

/// `reads` are what reading each candidate's address gives in a memory where
/// the bytes of the scanned length at address `a` are `mem(a)` (`None` where
/// they cannot be read).
pub open spec fn reads_from(
    mem: spec_fn(u64) -> Option<Seq<u8>>,
    candidates: Seq<CandidateView>,
    reads: Seq<Option<Vec<u8>>>,
) -> bool {
    &&& reads.len() == candidates.len()
    &&& forall|k: int|
        0 <= k < candidates.len() ==> read_agrees(mem(candidates[k].address), #[trigger] reads[k])
}

/// Law: re-scanning is idempotent: over a memory that does not change, a
/// second re-scan for the same bytes keeps everything the first one kept.
pub proof fn law_rescan_idempotent(
    mem: spec_fn(u64) -> Option<Seq<u8>>,
    candidates: Seq<CandidateView>,
    reads: Seq<Option<Vec<u8>>>,
    reads_again: Seq<Option<Vec<u8>>>,
    target: Seq<u8>,
)
    requires
        reads_from(mem, candidates, reads),
        reads_from(mem, spec_filter_scan(candidates, reads, target), reads_again),
    ensures
        spec_filter_scan(spec_filter_scan(candidates, reads, target), reads_again, target)
            == spec_filter_scan(candidates, reads, target),
{
    let kept = spec_filter_scan(candidates, reads, target);
    lemma_filter_upto_narrows(candidates, reads, target, candidates.len());
    assert forall|k: int| 0 <= k < kept.len() implies {
        &&& (#[trigger] kept[k]).value == target
        &&& kept[k].width == target.len() as u8
        &&& reads_again[k] matches Some(d) && d@ == target
    } by {
        let j = choose|j: int|
            0 <= j < candidates.len() && candidates[j].address == kept[k].address
                && candidates[j].pinned == kept[k].pinned && (#[trigger] reads[j] matches Some(d)
                && d@ == target);
        assert(read_agrees(mem(candidates[j].address), reads[j]));
        assert(read_agrees(mem(kept[k].address), reads_again[k]));
    }
    law_rescan_of_unchanged_memory_keeps_all(kept, reads_again, target);
}

/// Memory still holds, at every address of every region that was read, the
/// bytes that the scan read there.
pub open spec fn memory_unchanged(
    mem: spec_fn(u64) -> Option<Seq<u8>>,
    regions: Seq<MemRegion>,
    contents: Seq<Option<Vec<u8>>>,
    target_len: nat,
) -> bool {
    forall|k: int, i: int|
        0 <= k < regions.len() && contents[k] is Some && 0 <= i && i + target_len
            <= contents[k]->0@.len() && regions[k].base + i <= u64::MAX ==> mem(
            (regions[k].base + i) as u64,
        ) == Some(#[trigger] contents[k]->0@.subrange(i, i + target_len))
}

proof fn lemma_scan_upto_source(
    regions: Seq<MemRegion>,
    contents: Seq<Option<Vec<u8>>>,
    target: Seq<u8>,
    n: nat,
    x: int,
) -> (ki: (int, int))
    requires
        n <= regions.len() == contents.len(),
        target.len() > 0,
        scan_addresses_fit(regions, contents, target),
        0 <= x < scan_upto(regions, contents, target, n).len(),
    ensures
        0 <= ki.0 < n,
        contents[ki.0] is Some,
        matches_at(contents[ki.0]->0@, target, ki.1),
        regions[ki.0].base + ki.1 == scan_upto(regions, contents, target, n)[x].address,
    decreases n,
{
    let m = (n - 1) as nat;
    let prev = scan_upto(regions, contents, target, m);
    let cur = scan_upto(regions, contents, target, n);
    if x < prev.len() {
        assert(cur[x] == prev[x]);
        lemma_scan_upto_source(regions, contents, target, m, x)
    } else {
        let base = regions[m as int].base;
        let x_cands = region_candidates(base, contents[m as int], target);
        let y = x - prev.len();
        assert(cur[x] == x_cands[y]);
        assert(contents[m as int] is Some);
        let d = contents[m as int]->0;
        law_search_reports_exactly_the_matches(d@, target, base);
        let found = spec_search(d@, target, base);
        assert(x_cands[y] == found_candidate(found[y], target));
        let i = found[y] - base;
        (m as int, i)
    }
}

/// Law: re-scanning right after a scan, over memory that has not changed
/// since, keeps every candidate the scan found.
pub proof fn law_rescan_after_scan_keeps_all(
    mem: spec_fn(u64) -> Option<Seq<u8>>,
    regions: Seq<MemRegion>,
    contents: Seq<Option<Vec<u8>>>,
    target: Seq<u8>,
    reads: Seq<Option<Vec<u8>>>,
)
    requires
        regions.len() == contents.len(),
        scan_addresses_fit(regions, contents, target),
        memory_unchanged(mem, regions, contents, target.len()),
        reads_from(mem, spec_full_scan(regions, contents, target), reads),
    ensures
        spec_filter_scan(spec_full_scan(regions, contents, target), reads, target) == spec_full_scan(
            regions,
            contents,
            target,
        ),
{
    let found = spec_full_scan(regions, contents, target);
    law_full_scan_candidates_hold_target(regions, contents, target);
    if target.len() > 0 {
        assert forall|x: int| 0 <= x < found.len() implies {
            &&& (#[trigger] found[x]).value == target
            &&& found[x].width == target.len() as u8
            &&& reads[x] matches Some(d) && d@ == target
        } by {
            let (k, i) = lemma_scan_upto_source(regions, contents, target, regions.len(), x);
            assert(mem((regions[k].base + i) as u64) == Some(
                contents[k]->0@.subrange(i, i + target.len()),
            ));
            assert(read_agrees(mem(found[x].address), reads[x]));
        }
        law_rescan_of_unchanged_memory_keeps_all(found, reads, target);
    } else {
        lemma_scan_upto_empty_target(regions, contents, target, regions.len());
        assert(spec_filter_scan(found, reads, target) == Seq::<CandidateView>::empty());
    }
}

proof fn lemma_scan_upto_empty_target(
    regions: Seq<MemRegion>,
    contents: Seq<Option<Vec<u8>>>,
    target: Seq<u8>,
    n: nat,
)
    requires
        target.len() == 0,
    ensures
        scan_upto(regions, contents, target, n) == Seq::<CandidateView>::empty(),
    decreases n,
{
    if n > 0 {
        lemma_scan_upto_empty_target(regions, contents, target, (n - 1) as nat);
        let x = region_candidates(regions[n - 1].base, contents[n - 1], target);
        assert(x == Seq::<CandidateView>::empty());
        assert(Seq::<CandidateView>::empty() + x == x);
    }
}


/// Law: searching for a non-empty pattern reports `base + i` for every offset
/// `i` at which the bytes of `data` from `i` on equal the pattern, reports no
/// other address, and reports them in strictly increasing order.
pub proof fn law_search_complete_and_sound(data: Seq<u8>, target: Seq<u8>, base: u64)
    requires
        target.len() > 0,
        search_addresses_fit(data, target, base),
    ensures
        forall|i: int|
            0 <= i && i + target.len() <= data.len() && #[trigger] data.subrange(i, i + target.len())
                == target ==> spec_search(data, target, base).contains((base + i) as u64),
        forall|k: int|
            0 <= k < spec_search(data, target, base).len() ==> base <= #[trigger] spec_search(
                data,
                target,
                base,
            )[k] && spec_search(data, target, base)[k] - base + target.len() <= data.len()
                && data.subrange(
                spec_search(data, target, base)[k] - base,
                spec_search(data, target, base)[k] - base + target.len(),
            ) == target,
        forall|a: int, b: int|
            0 <= a < b < spec_search(data, target, base).len() ==> spec_search(data, target, base)[a]
                < spec_search(data, target, base)[b],
{
    law_search_reports_exactly_the_matches(data, target, base);
    assert forall|i: int|
        0 <= i && i + target.len() <= data.len() && #[trigger] data.subrange(i, i + target.len())
            == target implies spec_search(data, target, base).contains((base + i) as u64) by {
        assert(matches_at(data, target, i));
    }
    assert forall|k: int| 0 <= k < spec_search(data, target, base).len() implies base
        <= #[trigger] spec_search(data, target, base)[k] && spec_search(data, target, base)[k] - base
        + target.len() <= data.len() && data.subrange(
        spec_search(data, target, base)[k] - base,
        spec_search(data, target, base)[k] - base + target.len(),
    ) == target by {
        assert(matches_at(data, target, spec_search(data, target, base)[k] - base));
    }
}

proof fn lemma_scan_upto_includes(
    regions: Seq<MemRegion>,
    contents: Seq<Option<Vec<u8>>>,
    target: Seq<u8>,
    n: nat,
    k: int,
    y: int,
) -> (x: int)
    requires
        0 <= k < n,
        0 <= y < region_candidates(regions[k].base, contents[k], target).len(),
    ensures
        0 <= x < scan_upto(regions, contents, target, n).len(),
        scan_upto(regions, contents, target, n)[x] == region_candidates(
            regions[k].base,
            contents[k],
            target,
        )[y],
    decreases n,
{
    let m = (n - 1) as nat;
    let prev = scan_upto(regions, contents, target, m);
    if k < m {
        let x = lemma_scan_upto_includes(regions, contents, target, m, k, y);
        assert(scan_upto(regions, contents, target, n)[x] == prev[x]);
        x
    } else {
        prev.len() + y
    }
}

/// Law: a full scan finds every occurrence: for every region that could be
/// read and every offset at which its bytes equal the pattern, some candidate
/// sits at that region's base plus the offset and holds the pattern.
pub proof fn law_full_scan_finds_every_match(
    regions: Seq<MemRegion>,
    contents: Seq<Option<Vec<u8>>>,
    target: Seq<u8>,
)
    requires
        regions.len() == contents.len(),
        target.len() > 0,
        scan_addresses_fit(regions, contents, target),
    ensures
        forall|k: int, i: int|
            0 <= k < regions.len() && contents[k] is Some && 0 <= i && i + target.len()
                <= contents[k]->0@.len() && #[trigger] contents[k]->0@.subrange(i, i + target.len())
                == target ==> exists|x: int|
                0 <= x < spec_full_scan(regions, contents, target).len() && ({
                    let c = #[trigger] spec_full_scan(regions, contents, target)[x];
                    &&& c.address == regions[k].base + i
                    &&& c.value == target
                    &&& c.width == target.len() as u8
                    &&& !c.pinned
                }),
{
    assert forall|k: int, i: int|
        0 <= k < regions.len() && contents[k] is Some && 0 <= i && i + target.len()
            <= contents[k]->0@.len() && #[trigger] contents[k]->0@.subrange(i, i + target.len())
            == target implies exists|x: int|
        0 <= x < spec_full_scan(regions, contents, target).len() && ({
            let c = #[trigger] spec_full_scan(regions, contents, target)[x];
            &&& c.address == regions[k].base + i
            &&& c.value == target
            &&& c.width == target.len() as u8
            &&& !c.pinned
        }) by {
        let d = contents[k]->0;
        let base = regions[k].base;
        law_search_complete_and_sound(d@, target, base);
        let found = spec_search(d@, target, base);
        assert(found.contains((base + i) as u64));
        let y = choose|y: int| 0 <= y < found.len() && found[y] == (base + i) as u64;
        let rc = region_candidates(base, contents[k], target);
        assert(rc[y] == found_candidate((base + i) as u64, target));
        assert(matches_at(d@, target, i));
        assert(base + i <= u64::MAX);
        let x = lemma_scan_upto_includes(regions, contents, target, regions.len(), k, y);
        assert(spec_full_scan(regions, contents, target)[x] == found_candidate(
            (base + i) as u64,
            target,
        ));
    }
}


/// Law: a full scan reports only occurrences: every candidate sits at a
/// region's base plus an offset at which what was read of that region equals
/// the pattern, and holds the pattern, unpinned.
pub proof fn law_full_scan_reports_only_matches(
    regions: Seq<MemRegion>,
    contents: Seq<Option<Vec<u8>>>,
    target: Seq<u8>,
)
    requires
        regions.len() == contents.len(),
        scan_addresses_fit(regions, contents, target),
    ensures
        forall|x: int|
            0 <= x < spec_full_scan(regions, contents, target).len() ==> {
                let c = #[trigger] spec_full_scan(regions, contents, target)[x];
                &&& c.value == target
                &&& c.width == target.len() as u8
                &&& !c.pinned
                &&& exists|k: int, i: int|
                    0 <= k < regions.len() && contents[k] is Some && 0 <= i && i + target.len()
                        <= contents[k]->0@.len() && #[trigger] contents[k]->0@.subrange(
                        i,
                        i + target.len(),
                    ) == target && regions[k].base + i == c.address
            },
{
    law_full_scan_candidates_hold_target(regions, contents, target);
    if target.len() == 0 {
        lemma_scan_upto_empty_target(regions, contents, target, regions.len());
    } else {
        assert forall|x: int| 0 <= x < spec_full_scan(regions, contents, target).len() implies {
            let c = #[trigger] spec_full_scan(regions, contents, target)[x];
            &&& c.value == target
            &&& c.width == target.len() as u8
            &&& !c.pinned
            &&& exists|k: int, i: int|
                0 <= k < regions.len() && contents[k] is Some && 0 <= i && i + target.len()
                    <= contents[k]->0@.len() && #[trigger] contents[k]->0@.subrange(
                    i,
                    i + target.len(),
                ) == target && regions[k].base + i == c.address
        } by {
            let (k, i) = lemma_scan_upto_source(regions, contents, target, regions.len(), x);
            assert(contents[k]->0@.subrange(i, i + target.len()) == target);
        }
    }
}


/// `256^n` is `2^(8n)`.
pub proof fn lemma_pow256_is_pow2(n: nat)
    ensures
        pow256(n) == pow2(8 * n),
    decreases n,
{
    if n == 0 {
        lemma2_to64();
    } else {
        lemma_pow256_is_pow2((n - 1) as nat);
        lemma2_to64();
        lemma_pow2_adds(8, 8 * (n - 1) as nat);
        assert(8 + 8 * (n - 1) as nat == 8 * n);
    }
}

proof fn lemma_le_bytes_digit(v: nat, n: nat, k: int)
    requires
        0 <= k < n,
    ensures
        le_bytes(v, n)[k] == ((v / pow256(k as nat)) % 256) as u8,
    decreases n,
{
    if k > 0 {
        lemma_le_bytes_digit(v / 256, (n - 1) as nat, k - 1);
        lemma_pow256_positive((k - 1) as nat);
        lemma_div_denominator(v as int, 256, pow256((k - 1) as nat) as int);
        lemma_le_bytes_len(v / 256, (n - 1) as nat);
        assert(le_bytes(v, n)[k] == le_bytes(v / 256, (n - 1) as nat)[k - 1]);
        assert(pow256(k as nat) == 256 * pow256((k - 1) as nat));
    } else {
        assert(pow256(0) == 1);
        assert(v / 1 == v);
    }
}

/// Law: the bytes of a value at a supported width are its base-256 digits,
/// least significant first: byte `k` is `(val / 2^(8k)) % 256`.
pub proof fn law_encode_is_little_endian(val: u64, width: u8)
    requires
        is_scan_width(width),
    ensures
        spec_encode(val, width).len() == width,
        forall|k: int|
            0 <= k < width ==> #[trigger] spec_encode(val, width)[k] == ((val as nat / pow2(
                8 * k as nat,
            )) % 256) as u8,
{
    lemma_le_bytes_len(val as nat, width as nat);
    assert forall|k: int| 0 <= k < width implies #[trigger] spec_encode(val, width)[k] == ((val as nat
        / pow2(8 * k as nat)) % 256) as u8 by {
        lemma_le_bytes_digit(val as nat, width as nat, k);
        lemma_pow256_is_pow2(k as nat);
    }
}

/// Law: decoding at most eight bytes gives the number whose base-256 digits,
/// least significant first, are those bytes; longer inputs decode as their
/// first eight bytes.
pub proof fn law_decode_is_little_endian(bytes: Seq<u8>)
    ensures
        bytes.len() <= 8 ==> spec_decode(bytes) < pow2(8 * bytes.len()),
        bytes.len() <= 8 ==> forall|k: int|
            0 <= k < bytes.len() ==> (spec_decode(bytes) / pow2(8 * k as nat)) % 256 == #[trigger] bytes[k],
        bytes.len() > 8 ==> spec_decode(bytes) == spec_decode(bytes.take(8)),
{
    if bytes.len() <= 8 {
        lemma_le_value_bound(bytes);
        lemma_pow256_is_pow2(bytes.len());
        lemma_le_bytes_of_le_value(bytes);
        assert forall|k: int| 0 <= k < bytes.len() implies (spec_decode(bytes) / pow2(8 * k as nat))
            % 256 == #[trigger] bytes[k] by {
            lemma_le_bytes_digit(le_value(bytes), bytes.len(), k);
            lemma_pow256_is_pow2(k as nat);
        }
    } else {
        assert(bytes.take(8).take(8) == bytes.take(8));
    }
}

} // verus!
