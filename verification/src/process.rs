use vstd::prelude::*;
use crate::text::{chars_contain, chars_of, contains_text, lowercase_text, to_lowercase};

verus! {

/// A running process: its PID and executable name.
#[derive(Clone, Debug)]
pub struct ProcessInfo {
    pub pid: u32,
    pub name: String,
}

/// A process seen as plain values.
pub struct ProcessView {
    pub pid: u32,
    pub name: Seq<char>,
}

impl View for ProcessInfo {
    type V = ProcessView;

    open spec fn view(&self) -> ProcessView {
        ProcessView { pid: self.pid, name: self.name@ }
    }
}

/// The views of a sequence of processes.
pub open spec fn process_views(ps: Seq<ProcessInfo>) -> Seq<ProcessView> {
    ps.map_values(|p: ProcessInfo| p@)
}

/// One entry of a process snapshot as the system reports it: the PID and the
/// executable's file name in UTF-16, ended by a zero unit where shorter than
/// the field.
pub struct RawProcessEntry {
    pub pid: u32,
    pub exe_file: Vec<u16>,
}

/// The text that lossy UTF-16 decoding makes of `units`, as
/// `String::from_utf16_lossy` computes it: a unit outside the surrogate range
/// is its own character, a high surrogate followed by a low one is the
/// character they encode together, and every other surrogate unit becomes
/// U+FFFD.
pub open spec fn utf16_lossy_text(units: Seq<u16>) -> Seq<char>
    decreases units.len(),
{
    if units.len() == 0 {
        Seq::empty()
    } else {
        let u = units[0] as int;
        if u < 0xD800 || u > 0xDFFF {
            seq![u as char] + utf16_lossy_text(units.drop_first())
        } else if u <= 0xDBFF && units.len() >= 2 && 0xDC00 <= units[1] <= 0xDFFF {
            let c = 0x10000 + (u - 0xD800) * 0x400 + (units[1] - 0xDC00);
            seq![c as char] + utf16_lossy_text(units.skip(2))
        } else {
            seq!['\u{FFFD}'] + utf16_lossy_text(units.drop_first())
        }
    }
}

/// Calls `String::from_utf16_lossy`, which decodes `units` as UTF-16 and puts
/// U+FFFD in place of every unpaired surrogate.
#[verifier::external_body]
pub fn string_from_utf16_lossy(units: &[u16]) -> (s: String)
    ensures
        s@ == utf16_lossy_text(units@),
{
    String::from_utf16_lossy(units)
}

/// The units of a file name field up to its first zero unit, or all of them.
pub open spec fn name_units(field: Seq<u16>) -> Seq<u16> {
    if exists|i: int| 0 <= i < field.len() && field[i] == 0 {
        field.take(
            choose|i: int|
                0 <= i < field.len() && field[i] == 0 && forall|j: int| 0 <= j < i ==> field[j] != 0,
        )
    } else {
        field
    }
}

/// The executable name held in a file name field.
pub fn exe_name(field: &[u16]) -> (name: String)
    ensures
        name@ == utf16_lossy_text(name_units(field@)),
{
    let n = field.len();
    let mut end: usize = 0;
    while end < n && field[end] != 0
        invariant
            end <= n == field@.len(),
            forall|j: int| 0 <= j < end ==> field@[j] != 0,
        decreases n - end,
    {
        end = end + 1;
    }
    let mut units: Vec<u16> = Vec::new();
    let mut i: usize = 0;
    while i < end
        invariant
            i <= end <= n == field@.len(),
            units@ == field@.take(i as int),
        decreases end - i,
    {
        units.push(field[i]);
        assert(field@.take(i + 1) == field@.take(i as int).push(field@[i as int]));
        i = i + 1;
    }
    proof {
        if end < n {
            let k = choose|i: int|
                0 <= i < field@.len() && field@[i] == 0 && forall|j: int| 0 <= j < i ==> field@[j] != 0;
            assert(k == end) by {
                if k < end {
                } else if k > end {
                    assert(field@[end as int] == 0);
                }
            }
        } else {
            assert(field@.take(n as int) == field@);
        }
    }
    string_from_utf16_lossy(units.as_slice())
}

/// Lexicographic order on character sequences, by code point.
pub open spec fn chars_le(a: Seq<char>, b: Seq<char>) -> bool
    decreases a.len(),
{
    if a.len() == 0 {
        true
    } else if b.len() == 0 {
        false
    } else if a[0] != b[0] {
        a[0] < b[0]
    } else {
        chars_le(a.drop_first(), b.drop_first())
    }
}

pub proof fn lemma_chars_le_total(a: Seq<char>, b: Seq<char>)
    ensures
        chars_le(a, b) || chars_le(b, a),
    decreases a.len(),
{
    if a.len() > 0 && b.len() > 0 && a[0] == b[0] {
        lemma_chars_le_total(a.drop_first(), b.drop_first());
    }
}

pub proof fn lemma_chars_le_reflexive(a: Seq<char>)
    ensures
        chars_le(a, a),
    decreases a.len(),
{
    if a.len() > 0 {
        lemma_chars_le_reflexive(a.drop_first());
    }
}

pub proof fn lemma_chars_le_transitive(a: Seq<char>, b: Seq<char>, c: Seq<char>)
    requires
        chars_le(a, b),
        chars_le(b, c),
    ensures
        chars_le(a, c),
    decreases a.len(),
{
    if a.len() > 0 && b.len() > 0 && c.len() > 0 && a[0] == b[0] && b[0] == c[0] {
        lemma_chars_le_transitive(a.drop_first(), b.drop_first(), c.drop_first());
    }
}

/// Whether `a` comes at or before `b` in lexicographic code point order.
pub fn chars_less_eq(a: &Vec<char>, b: &Vec<char>) -> (r: bool)
    ensures
        r == chars_le(a@, b@),
{
    let mut i: usize = 0;
    assert(a@.skip(0) == a@ && b@.skip(0) == b@);
    while i < a.len() && i < b.len() && a[i] == b[i]
        invariant
            i <= a@.len(),
            i <= b@.len(),
            chars_le(a@, b@) == chars_le(a@.skip(i as int), b@.skip(i as int)),
        decreases a@.len() - i,
    {
        assert(a@.skip(i as int).drop_first() == a@.skip(i + 1));
        assert(b@.skip(i as int).drop_first() == b@.skip(i + 1));
        i = i + 1;
    }
    if i == a.len() {
        true
    } else if i == b.len() {
        false
    } else {
        assert(a@.skip(i as int)[0] == a@[i as int]);
        assert(b@.skip(i as int)[0] == b@[i as int]);
        a[i] < b[i]
    }
}

/// The key that orders processes: the lower-cased name.
pub open spec fn sort_key(p: ProcessView) -> Seq<char> {
    lowercase_text(p.name)
}

/// The position at which `x` goes into `t`: after every process whose key is
/// at or before its own, counted from the front.
pub open spec fn insert_position(t: Seq<ProcessView>, x: ProcessView) -> nat
    decreases t.len(),
{
    if t.len() == 0 {
        0
    } else if !chars_le(sort_key(t[0]), sort_key(x)) {
        0
    } else {
        1 + insert_position(t.drop_first(), x)
    }
}

/// The processes `s` sorted by key, equal keys in their order in `s`.
pub open spec fn sort_by_name(s: Seq<ProcessView>) -> Seq<ProcessView>
    decreases s.len(),
{
    if s.len() == 0 {
        s
    } else {
        let t = sort_by_name(s.drop_last());
        t.insert(insert_position(t, s.last()) as int, s.last())
    }
}

proof fn lemma_insert_position_facts(t: Seq<ProcessView>, x: ProcessView)
    ensures
        insert_position(t, x) <= t.len(),
        forall|i: int| 0 <= i < insert_position(t, x) ==> chars_le(sort_key(#[trigger] t[i]), sort_key(x)),
        insert_position(t, x) < t.len() ==> !chars_le(sort_key(t[insert_position(t, x) as int]), sort_key(x)),
    decreases t.len(),
{
    if t.len() > 0 && chars_le(sort_key(t[0]), sort_key(x)) {
        lemma_insert_position_facts(t.drop_first(), x);
        assert forall|i: int| 0 <= i < insert_position(t, x) implies chars_le(
            sort_key(#[trigger] t[i]),
            sort_key(x),
        ) by {
            if i > 0 {
                assert(t[i] == t.drop_first()[i - 1]);
            }
        }
    }
}

/// The keys of `s` never decrease.
pub open spec fn sorted_by_key(s: Seq<ProcessView>) -> bool {
    forall|i: int, j: int| 0 <= i < j < s.len() ==> chars_le(sort_key(#[trigger] s[i]), sort_key(#[trigger] s[j]))
}


proof fn lemma_insert_position_exact(t: Seq<ProcessView>, x: ProcessView, k: nat)
    requires
        k <= t.len(),
        forall|j: int| 0 <= j < k ==> chars_le(sort_key(#[trigger] t[j]), sort_key(x)),
        k < t.len() ==> !chars_le(sort_key(t[k as int]), sort_key(x)),
    ensures
        insert_position(t, x) == k,
    decreases t.len(),
{
    if t.len() > 0 && k > 0 {
        assert(chars_le(sort_key(t[0]), sort_key(x)));
        assert forall|j: int| 0 <= j < k - 1 implies chars_le(
            sort_key(#[trigger] t.drop_first()[j]),
            sort_key(x),
        ) by {
            assert(t.drop_first()[j] == t[j + 1]);
        }
        if k < t.len() {
            assert(t.drop_first()[k - 1] == t[k as int]);
        }
        lemma_insert_position_exact(t.drop_first(), x, (k - 1) as nat);
    }
}

impl ProcessInfo {
    /// A field-by-field copy.
    pub fn duplicate(&self) -> (out: ProcessInfo)
        ensures
            out@ == self@,
    {
        ProcessInfo { pid: self.pid, name: self.name.clone() }
    }
}

/// The lower-cased characters of a process's name.
pub fn name_key(p: &ProcessInfo) -> (key: Vec<char>)
    ensures
        key@ == sort_key(p@),
{
    let lower = to_lowercase(p.name.as_str());
    chars_of(lower.as_str())
}

/// Sort processes by name, ignoring case; processes with equal keys keep
/// their order.
pub fn sort_processes(procs: &Vec<ProcessInfo>) -> (out: Vec<ProcessInfo>)
    ensures
        process_views(out@) == sort_by_name(process_views(procs@)),
        forall|i: int, j: int|
            0 <= i < j < out@.len() ==> chars_le(
                lowercase_text((#[trigger] out@[i]).name@),
                lowercase_text((#[trigger] out@[j]).name@),
            ),
        process_views(out@).to_multiset() == process_views(procs@).to_multiset(),
{
    let ghost pv = process_views(procs@);
    let mut out: Vec<ProcessInfo> = Vec::new();
    let mut keys: Vec<Vec<char>> = Vec::new();
    let mut i: usize = 0;
    while i < procs.len()
        invariant
            i <= procs@.len(),
            pv == process_views(procs@),
            process_views(out@) == sort_by_name(pv.take(i as int)),
            keys@.len() == out@.len(),
            forall|k: int| 0 <= k < keys@.len() ==> (#[trigger] keys@[k])@ == sort_key(out@[k]@),
        decreases procs@.len() - i,
    {
        let x = procs[i].duplicate();
        let key = name_key(&x);
        let ghost t = process_views(out@);
        let mut p: usize = 0;
        while p < keys.len() && chars_less_eq(&keys[p], &key)
            invariant
                p <= keys@.len() == out@.len() == t.len(),
                t == process_views(out@),
                key@ == sort_key(x@),
                forall|k: int| 0 <= k < keys@.len() ==> (#[trigger] keys@[k])@ == sort_key(out@[k]@),
                forall|j: int| 0 <= j < p ==> chars_le(sort_key(#[trigger] t[j]), sort_key(x@)),
            decreases keys@.len() - p,
        {
            assert(keys@[p as int]@ == sort_key(t[p as int]));
            p = p + 1;
        }
        proof {
            if p < keys@.len() {
                assert(keys@[p as int]@ == sort_key(t[p as int]));
            }
            lemma_insert_position_exact(t, x@, p as nat);
            assert(pv.take(i + 1).drop_last() == pv.take(i as int));
            assert(pv.take(i + 1).last() == x@);
        }
        let ghost xv = x@;
        let ghost old_keys = keys@;
        let ghost old_out = out@;
        out.insert(p, x);
        keys.insert(p, key);
        assert(process_views(out@) == t.insert(p as int, xv));
        assert forall|k: int| 0 <= k < keys@.len() implies (#[trigger] keys@[k])@ == sort_key(
            out@[k]@,
        ) by {
            if k > p {
                assert(keys@[k] == old_keys[k - 1]);
                assert(out@[k] == old_out[k - 1]);
            }
        }
        i = i + 1;
    }
    assert(pv.take(i as int) == pv);
    proof {
        law_sort_orders_by_lowercased_name(pv);
        law_sort_is_permutation(pv);
        assert forall|a: int, b: int| 0 <= a < b < out@.len() implies chars_le(
            lowercase_text((#[trigger] out@[a]).name@),
            lowercase_text((#[trigger] out@[b]).name@),
        ) by {
            assert(process_views(out@)[a] == out@[a]@);
            assert(process_views(out@)[b] == out@[b]@);
        }
    }
    out
}

/// The process that a snapshot entry describes.
pub open spec fn entry_process(e: RawProcessEntry) -> ProcessView {
    ProcessView { pid: e.pid, name: utf16_lossy_text(name_units(e.exe_file@)) }
}

/// The processes of a snapshot, in the snapshot's order.
pub open spec fn entry_processes(entries: Seq<RawProcessEntry>) -> Seq<ProcessView> {
    entries.map_values(|e: RawProcessEntry| entry_process(e))
}

/// The process list of a snapshot: each entry's PID and decoded name,
/// sorted by name ignoring case.
pub fn enumerate_processes(entries: &[RawProcessEntry]) -> (out: Vec<ProcessInfo>)
    ensures
        process_views(out@) == sort_by_name(entry_processes(entries@)),
{
    let mut procs: Vec<ProcessInfo> = Vec::new();
    let mut i: usize = 0;
    while i < entries.len()
        invariant
            i <= entries@.len(),
            process_views(procs@) == entry_processes(entries@).take(i as int),
        decreases entries@.len() - i,
    {
        let e = &entries[i];
        let p = ProcessInfo { pid: e.pid, name: exe_name(e.exe_file.as_slice()) };
        procs.push(p);
        assert(entry_processes(entries@).take(i + 1) == entry_processes(entries@).take(i as int).push(
            p@,
        ));
        i = i + 1;
    }
    assert(entry_processes(entries@).take(i as int) == entry_processes(entries@));
    sort_processes(&procs)
}

proof fn lemma_insert_keeps_sorted(t: Seq<ProcessView>, x: ProcessView)
    requires
        sorted_by_key(t),
    ensures
        sorted_by_key(t.insert(insert_position(t, x) as int, x)),
{
    lemma_insert_position_facts(t, x);
    let p = insert_position(t, x) as int;
    let u = t.insert(p, x);
    assert forall|i: int, j: int| 0 <= i < j < u.len() implies chars_le(
        sort_key(#[trigger] u[i]),
        sort_key(#[trigger] u[j]),
    ) by {
        if j < p {
            assert(u[i] == t[i] && u[j] == t[j]);
        } else if j == p {
            assert(u[i] == t[i]);
        } else if i == p {
            assert(u[j] == t[j - 1]);
            lemma_chars_le_total(sort_key(t[p]), sort_key(x));
            if j - 1 > p {
                lemma_chars_le_transitive(sort_key(x), sort_key(t[p]), sort_key(t[j - 1]));
            }
        } else if i < p {
            assert(u[i] == t[i] && u[j] == t[j - 1]);
        } else {
            assert(u[i] == t[i - 1] && u[j] == t[j - 1]);
        }
    }
}

/// Law: sorting by name gives processes whose lower-cased names never decrease.
pub proof fn law_sort_is_sorted(s: Seq<ProcessView>)
    ensures
        sorted_by_key(sort_by_name(s)),
    decreases s.len(),
{
    if s.len() > 0 {
        law_sort_is_sorted(s.drop_last());
        lemma_insert_keeps_sorted(sort_by_name(s.drop_last()), s.last());
    }
}

/// Law: sorting by name keeps exactly the processes it was given.
pub proof fn law_sort_is_permutation(s: Seq<ProcessView>)
    ensures
        sort_by_name(s).to_multiset() == s.to_multiset(),
    decreases s.len(),
{
    broadcast use vstd::seq_lib::to_multiset_insert, vstd::seq_lib::to_multiset_build;

    if s.len() > 0 {
        law_sort_is_permutation(s.drop_last());
        let t = sort_by_name(s.drop_last());
        lemma_insert_position_facts(t, s.last());
        assert(s.drop_last().push(s.last()) == s);
    }
}

/// Law: a list already sorted by name comes out of the sort unchanged, so
/// sorting twice is sorting once.
pub proof fn law_sort_keeps_sorted(s: Seq<ProcessView>)
    requires
        sorted_by_key(s),
    ensures
        sort_by_name(s) == s,
    decreases s.len(),
{
    if s.len() > 0 {
        let init = s.drop_last();
        assert(sorted_by_key(init)) by {
            assert forall|i: int, j: int| 0 <= i < j < init.len() implies chars_le(
                sort_key(#[trigger] init[i]),
                sort_key(#[trigger] init[j]),
            ) by {
                assert(init[i] == s[i] && init[j] == s[j]);
            }
        }
        law_sort_keeps_sorted(init);
        assert forall|j: int| 0 <= j < init.len() implies chars_le(
            sort_key(#[trigger] init[j]),
            sort_key(s.last()),
        ) by {
            assert(init[j] == s[j]);
        }
        lemma_insert_position_exact(init, s.last(), init.len());
        assert(init.insert(init.len() as int, s.last()) == s);
    }
}

/// Law: sorting twice gives the same list as sorting once.
pub proof fn law_sort_idempotent(s: Seq<ProcessView>)
    ensures
        sort_by_name(sort_by_name(s)) == sort_by_name(s),
{
    law_sort_is_sorted(s);
    law_sort_keeps_sorted(sort_by_name(s));
}


/// A process is listed under a filter when the lower-cased filter is empty or
/// occurs in its lower-cased name.
pub open spec fn listed(p: ProcessView, lowered_filter: Seq<char>) -> bool {
    lowered_filter.len() == 0 || contains_text(lowercase_text(p.name), lowered_filter)
}

/// The processes that the process page lists under `filter`, in order.
pub fn visible_processes(processes: &Vec<ProcessInfo>, filter: &str) -> (out: Vec<ProcessInfo>)
    ensures
        process_views(out@) == process_views(processes@).filter(
            |p: ProcessView| listed(p, lowercase_text(filter@)),
        ),
        process_views(out@) == visible_list(process_views(processes@), filter@),
{
    let lowered = to_lowercase(filter);
    let f = chars_of(lowered.as_str());
    let ghost pv = process_views(processes@);
    let ghost pred = |p: ProcessView| listed(p, lowercase_text(filter@));
    let mut out: Vec<ProcessInfo> = Vec::new();
    let mut i: usize = 0;
    while i < processes.len()
        invariant
            i <= processes@.len(),
            pv == process_views(processes@),
            f@ == lowercase_text(filter@),
            pred == (|p: ProcessView| listed(p, lowercase_text(filter@))),
            process_views(out@) == pv.take(i as int).filter(pred),
        decreases processes@.len() - i,
    {
        proof {
            reveal(Seq::filter);
            assert(pv.take(i + 1).drop_last() == pv.take(i as int));
            assert(pv.take(i + 1).last() == processes@[i as int]@);
        }
        let p = &processes[i];
        let keep = if f.len() == 0 {
            true
        } else {
            let key = name_key(p);
            chars_contain(&key, &f)
        };
        if keep {
            let ghost before = process_views(out@);
            out.push(p.duplicate());
            assert(process_views(out@) == before.push(p@));
        }
        i = i + 1;
    }
    assert(pv.take(i as int) == pv);
    out
}


/// The processes of `s` whose key is `k`, in order.
pub open spec fn with_key(s: Seq<ProcessView>, k: Seq<char>) -> Seq<ProcessView> {
    s.filter(|p: ProcessView| sort_key(p) == k)
}

proof fn lemma_with_key_none(s: Seq<ProcessView>, k: Seq<char>)
    requires
        forall|i: int| 0 <= i < s.len() ==> sort_key(#[trigger] s[i]) != k,
    ensures
        with_key(s, k) == Seq::<ProcessView>::empty(),
    decreases s.len(),
{
    reveal(Seq::filter);
    if s.len() > 0 {
        assert forall|i: int| 0 <= i < s.drop_last().len() implies sort_key(
            #[trigger] s.drop_last()[i],
        ) != k by {
            assert(s.drop_last()[i] == s[i]);
        }
        lemma_with_key_none(s.drop_last(), k);
    }
}

proof fn lemma_with_key_push(s: Seq<ProcessView>, x: ProcessView, k: Seq<char>)
    ensures
        with_key(s.push(x), k) == if sort_key(x) == k {
            with_key(s, k).push(x)
        } else {
            with_key(s, k)
        },
{
    reveal(Seq::filter);
    assert(s.push(x).drop_last() == s);
}

/// Law: the sort is stable: for every key, the processes with that key come
/// out in the order they went in.
pub proof fn law_sort_is_stable(s: Seq<ProcessView>, k: Seq<char>)
    ensures
        with_key(sort_by_name(s), k) == with_key(s, k),
    decreases s.len(),
{
    broadcast use vstd::seq::Seq::filter_distributes_over_add;

    if s.len() > 0 {
        let init = s.drop_last();
        let x = s.last();
        law_sort_is_stable(init, k);
        let t = sort_by_name(init);
        law_sort_is_sorted(init);
        lemma_insert_position_facts(t, x);
        let pos = insert_position(t, x) as int;
        let head = t.take(pos);
        let tail = t.skip(pos);
        assert(t == head + tail);
        assert(t.insert(pos, x) == head.push(x) + tail);
        assert(s == init.push(x));
        lemma_with_key_push(init, x, k);
        lemma_with_key_push(head, x, k);
        if sort_key(x) == k {
            assert forall|i: int| 0 <= i < tail.len() implies sort_key(#[trigger] tail[i]) != k by {
                assert(tail[i] == t[pos + i]);
                if i > 0 {
                    assert(chars_le(sort_key(t[pos]), sort_key(t[pos + i])));
                }
                if sort_key(tail[i]) == k {
                    lemma_chars_le_reflexive(k);
                    assert(chars_le(sort_key(t[pos]), sort_key(x)));
                }
            }
            lemma_with_key_none(tail, k);
            assert(with_key(t, k) == with_key(head, k) + with_key(tail, k));
            assert(with_key(head.push(x) + tail, k) == with_key(head.push(x), k) + with_key(tail, k));
            assert(with_key(head, k).push(x) + Seq::<ProcessView>::empty() == with_key(head, k).push(x));
        } else {
            assert(with_key(t, k) == with_key(head, k) + with_key(tail, k));
            assert(with_key(head.push(x) + tail, k) == with_key(head.push(x), k) + with_key(tail, k));
        }
    }
}

/// Law: the sorted list orders processes by their whole lower-cased names:
/// of any two, the earlier one's lower-cased name comes first or equal in
/// lexicographic code point order.
pub proof fn law_sort_orders_by_lowercased_name(s: Seq<ProcessView>)
    ensures
        forall|i: int, j: int|
            0 <= i < j < sort_by_name(s).len() ==> chars_le(
                lowercase_text((#[trigger] sort_by_name(s)[i]).name),
                lowercase_text((#[trigger] sort_by_name(s)[j]).name),
            ),
{
    law_sort_is_sorted(s);
}

/// Law: `chars_le` is lexicographic order by code point: `a` comes at or
/// before `b` exactly when `a` is a prefix of `b`, or at the first position
/// where they differ `a` has the smaller character.
pub proof fn law_chars_le_is_lexicographic(a: Seq<char>, b: Seq<char>)
    ensures
        chars_le(a, b) <==> (a.len() <= b.len() && b.take(a.len() as int) == a) || exists|i: int|
            0 <= i < a.len() && i < b.len() && a.take(i) == b.take(i) && #[trigger] a[i] < b[i],
    decreases a.len(),
{
    if a.len() == 0 {
        assert(b.take(0) == a);
    } else if b.len() == 0 {
    } else if a[0] != b[0] {
        if a[0] < b[0] {
            assert(a.take(0) == b.take(0));
        } else {
            if a.len() <= b.len() {
                assert(b.take(a.len() as int)[0] != a[0]);
            }
            assert forall|i: int|
                0 <= i < a.len() && i < b.len() && a.take(i) == b.take(i) implies !(#[trigger] a[i]
                < b[i]) by {
                if i > 0 {
                    assert(a.take(i)[0] == b.take(i)[0]);
                }
            }
        }
    } else {
        let a1 = a.drop_first();
        let b1 = b.drop_first();
        law_chars_le_is_lexicographic(a1, b1);
        if a.len() <= b.len() && b.take(a.len() as int) == a {
            assert(b1.take(a1.len() as int) == a1);
        }
        if a1.len() <= b1.len() && b1.take(a1.len() as int) == a1 {
            assert(b.take(a.len() as int) =~= a) by {
                assert forall|t: int| 0 <= t < a.len() implies #[trigger] b[t] == a[t] by {
                    if t > 0 {
                        assert(b1.take(a1.len() as int)[t - 1] == a1[t - 1]);
                    }
                }
            }
        }
        if exists|i: int|
            0 <= i < a1.len() && i < b1.len() && a1.take(i) == b1.take(i) && #[trigger] a1[i] < b1[i] {
            let i = choose|i: int|
                0 <= i < a1.len() && i < b1.len() && a1.take(i) == b1.take(i) && #[trigger] a1[i]
                    < b1[i];
            assert(a.take(i + 1) =~= b.take(i + 1)) by {
                assert forall|t: int| 0 <= t < i + 1 implies #[trigger] a[t] == b[t] by {
                    if t > 0 {
                        assert(a1.take(i)[t - 1] == b1.take(i)[t - 1]);
                    }
                }
            }
            assert(a[i + 1] < b[i + 1]);
        }
        if exists|i: int|
            0 <= i < a.len() && i < b.len() && a.take(i) == b.take(i) && #[trigger] a[i] < b[i] {
            let i = choose|i: int|
                0 <= i < a.len() && i < b.len() && a.take(i) == b.take(i) && #[trigger] a[i] < b[i];
            assert(i > 0);
            assert(a1.take(i - 1) =~= b1.take(i - 1)) by {
                assert forall|t: int| 0 <= t < i - 1 implies #[trigger] a1[t] == b1[t] by {
                    assert(a.take(i)[t + 1] == b.take(i)[t + 1]);
                }
            }
            assert(a1[i - 1] < b1[i - 1]);
        }
    }
}


/// The processes listed under `filter`, in order.
pub open spec fn visible_list(procs: Seq<ProcessView>, filter: Seq<char>) -> Seq<ProcessView> {
    procs.filter(|p: ProcessView| listed(p, lowercase_text(filter)))
}

/// Law: under a filter the process page lists, in order, exactly the processes
/// whose lower-cased name holds the lower-cased filter at some position (any
/// process when the lower-cased filter is empty).
pub proof fn law_visible_processes_match_anywhere(procs: Seq<ProcessView>, filter: Seq<char>)
    ensures
        forall|i: int|
            0 <= i < procs.len() && (lowercase_text(filter).len() == 0 || exists|j: int|
                0 <= j && j + lowercase_text(filter).len() <= lowercase_text(procs[i].name).len()
                    && #[trigger] lowercase_text(procs[i].name).subrange(
                    j,
                    j + lowercase_text(filter).len(),
                ) == lowercase_text(filter)) ==> visible_list(procs, filter).contains(#[trigger] procs[i]),
        forall|k: int|
            0 <= k < visible_list(procs, filter).len() ==> {
                let q = #[trigger] visible_list(procs, filter)[k];
                &&& procs.contains(q)
                &&& lowercase_text(filter).len() == 0 || exists|j: int|
                    0 <= j && j + lowercase_text(filter).len() <= lowercase_text(q.name).len()
                        && #[trigger] lowercase_text(q.name).subrange(
                        j,
                        j + lowercase_text(filter).len(),
                    ) == lowercase_text(filter)
            },
{
    broadcast use vstd::seq_lib::group_filter_ensures;

    let f = lowercase_text(filter);
    let pred = |p: ProcessView| listed(p, f);
    let out = procs.filter(pred);
    assert(out == visible_list(procs, filter));
    assert forall|i: int|
        0 <= i < procs.len() && (f.len() == 0 || exists|j: int|
            0 <= j && j + f.len() <= lowercase_text(procs[i].name).len()
                && #[trigger] lowercase_text(procs[i].name).subrange(j, j + f.len()) == f) implies out.contains(
        #[trigger] procs[i],
    ) by {
        if f.len() != 0 {
            let j = choose|j: int|
                0 <= j && j + f.len() <= lowercase_text(procs[i].name).len()
                    && #[trigger] lowercase_text(procs[i].name).subrange(j, j + f.len()) == f;
            assert(contains_text(lowercase_text(procs[i].name), f));
        }
        assert(pred(procs[i]));
    }
    assert forall|k: int| 0 <= k < out.len() implies {
        let q = #[trigger] out[k];
        &&& procs.contains(q)
        &&& f.len() == 0 || exists|j: int|
            0 <= j && j + f.len() <= lowercase_text(q.name).len()
                && #[trigger] lowercase_text(q.name).subrange(j, j + f.len()) == f
    } by {
        let q = out[k];
        assert(pred(q));
        assert(out.contains(q));
        procs.lemma_filter_contains_rev(pred, q);
        if f.len() != 0 {
            assert(contains_text(lowercase_text(q.name), f));
            let j = choose|j: int|
                0 <= j && j + f.len() <= lowercase_text(q.name).len()
                    && #[trigger] lowercase_text(q.name).subrange(j, j + f.len()) == f;
        }
    }
}


/// Law: the name units of a file name field are the units before its first
/// zero unit, or all of them when there is none.
pub proof fn law_name_units_stop_at_first_zero(field: Seq<u16>)
    ensures
        name_units(field).len() <= field.len(),
        field.take(name_units(field).len() as int) == name_units(field),
        forall|i: int| 0 <= i < name_units(field).len() ==> #[trigger] field[i] != 0,
        name_units(field).len() < field.len() ==> field[name_units(field).len() as int] == 0,
{
    if exists|i: int| 0 <= i < field.len() && field[i] == 0 {
        let k0 = choose|i: int| 0 <= i < field.len() && field[i] == 0;
        lemma_least_zero(field, k0);
    } else {
        assert(field.take(field.len() as int) == field);
    }
}

proof fn lemma_least_zero(field: Seq<u16>, k: int)
    requires
        0 <= k < field.len(),
        field[k] == 0,
    ensures
        exists|i: int| 0 <= i < field.len() && field[i] == 0 && forall|j: int| 0 <= j < i ==> field[j] != 0,
    decreases k,
{
    if exists|j: int| 0 <= j < k && field[j] == 0 {
        let j = choose|j: int| 0 <= j < k && field[j] == 0;
        lemma_least_zero(field, j);
    }
}

} // verus!
