use vstd::prelude::*;
use vstd::arithmetic::div_mod::lemma_div_denominator;
use vstd::arithmetic::power::{lemma_pow_positive, pow};

verus! {

/// The character of a digit below sixteen, lower-case for ten and above.
pub open spec fn digit_char(d: nat) -> char {
    if d < 10 {
        (d + 48) as char
    } else {
        (d + 87) as char
    }
}

/// The last `n` digits of `v` in `base`, most significant first.
pub open spec fn fixed_digits(v: nat, base: nat, n: nat) -> Seq<char>
    decreases n,
{
    if n == 0 {
        Seq::empty()
    } else {
        fixed_digits(v / base, base, (n - 1) as nat) + seq![digit_char(v % base)]
    }
}

/// `v` in decimal, without leading zeros.
pub open spec fn decimal(v: nat) -> Seq<char>
    decreases v,
{
    if v < 10 {
        seq![digit_char(v)]
    } else {
        decimal(v / 10) + seq![digit_char(v % 10)]
    }
}

/// `v` as `0x` followed by sixteen lower-case hexadecimal digits.
pub open spec fn hex_address_text(v: u64) -> Seq<char> {
    seq!['0', 'x'] + fixed_digits(v as nat, 16, 16)
}

/// Collects `chars` into a `String` (`String: FromIterator<&char>`), which
/// pushes each character in turn: the string holds exactly those characters,
/// in order.
#[verifier::external_body]
pub fn string_from_chars(chars: &Vec<char>) -> (s: String)
    ensures
        s@ == chars@,
{
    chars.iter().collect()
}

fn digit(d: u64) -> (c: char)
    requires
        d < 16,
    ensures
        c == digit_char(d as nat),
{
    if d < 10 {
        ((d as u8) + 48) as char
    } else {
        ((d as u8) + 87) as char
    }
}

/// `v` written as `0x` and sixteen zero-padded lower-case hexadecimal digits.
pub fn hex_address(v: u64) -> (s: String)
    ensures
        s@ == hex_address_text(v),
{
    let mut out: Vec<char> = Vec::new();
    let mut cur: u64 = v;
    let mut i: usize = 0;
    while i < 16
        invariant
            i <= 16,
            fixed_digits(v as nat, 16, 16) == fixed_digits(cur as nat, 16, (16 - i) as nat) + out@,
        decreases 16 - i,
    {
        let c = digit(cur % 16);
        let ghost old_out = out@;
        let ghost old_cur = cur;
        out.insert(0, c);
        cur = cur / 16;
        i = i + 1;
        assert(fixed_digits(old_cur as nat, 16, (16 - (i - 1)) as nat) == fixed_digits(
            cur as nat,
            16,
            (16 - i) as nat,
        ) + seq![c]);
        assert(out@ == seq![c] + old_out);
        assert(fixed_digits(cur as nat, 16, (16 - i) as nat) + seq![c] + old_out == fixed_digits(
            cur as nat,
            16,
            (16 - i) as nat,
        ) + out@);
    }
    assert(fixed_digits(cur as nat, 16, 0) + out@ == out@);
    let mut full: Vec<char> = Vec::new();
    full.push('0');
    full.push('x');
    let mut j: usize = 0;
    while j < out.len()
        invariant
            j <= out@.len(),
            full@ == seq!['0', 'x'] + out@.take(j as int),
        decreases out@.len() - j,
    {
        full.push(out[j]);
        assert(out@.take(j + 1) == out@.take(j as int).push(out@[j as int]));
        j = j + 1;
    }
    assert(out@.take(j as int) == out@);
    string_from_chars(&full)
}

/// The decimal digits of `v`, most significant first.
pub fn decimal_chars(v: u64) -> (out: Vec<char>)
    ensures
        out@ == decimal(v as nat),
{
    let mut out: Vec<char> = Vec::new();
    let mut cur: u64 = v;
    while cur >= 10
        invariant
            decimal(v as nat) == decimal(cur as nat) + out@,
        decreases cur,
    {
        let c = digit(cur % 10);
        let ghost old_out = out@;
        let ghost old_cur = cur;
        out.insert(0, c);
        cur = cur / 10;
        assert(decimal(old_cur as nat) == decimal(cur as nat) + seq![c]);
        assert(decimal(cur as nat) + seq![c] + old_out == decimal(cur as nat) + out@);
    }
    let c = digit(cur);
    out.insert(0, c);
    assert(out@ == seq![c] + (out@.drop_first()));
    out
}


/// Whether `c` has the Unicode `White_Space` property, which `char::is_whitespace`
/// tests: the 25 code points U+0009 to U+000D, U+0020, U+0085, U+00A0, U+1680,
/// U+2000 to U+200A, U+2028, U+2029, U+202F, U+205F and U+3000.
pub open spec fn white_space(c: char) -> bool {
    let n = c as int;
    ||| 0x09 <= n <= 0x0D
    ||| n == 0x20
    ||| n == 0x85
    ||| n == 0xA0
    ||| n == 0x1680
    ||| 0x2000 <= n <= 0x200A
    ||| n == 0x2028
    ||| n == 0x2029
    ||| n == 0x202F
    ||| n == 0x205F
    ||| n == 0x3000
}

/// The lower-case mapping of `s`, as `str::to_lowercase` computes it.
pub uninterp spec fn lowercase_text(s: Seq<char>) -> Seq<char>;

/// Calls `char::is_whitespace`, which tells whether `c` has the Unicode
/// `White_Space` property.
#[verifier::external_body]
pub fn is_white_space(c: char) -> (r: bool)
    ensures
        r == white_space(c),
{
    c.is_whitespace()
}

/// Calls `str::to_lowercase`, which maps every character of `s` to its
/// Unicode lower case; the result is named, not spelled out.
#[verifier::external_body]
pub fn to_lowercase(s: &str) -> (out: String)
    ensures
        out@ == lowercase_text(s@),
{
    s.to_lowercase()
}

/// The characters of `s`, in order.
pub fn chars_of(s: &str) -> (out: Vec<char>)
    ensures
        out@ == s@,
{
    let n = s.unicode_len();
    let mut out: Vec<char> = Vec::new();
    let mut i: usize = 0;
    while i < n
        invariant
            i <= n == s@.len(),
            out@ == s@.take(i as int),
        decreases n - i,
    {
        out.push(s.get_char(i));
        assert(s@.take(i + 1) == s@.take(i as int).push(s@[i as int]));
        i = i + 1;
    }
    assert(s@.take(n as int) == s@);
    out
}

/// The length of the longest prefix of `s` made of white space.
pub open spec fn leading_space(s: Seq<char>) -> nat
    decreases s.len(),
{
    if s.len() > 0 && white_space(s[0]) {
        1 + leading_space(s.drop_first())
    } else {
        0
    }
}

/// The length of the longest suffix of `s` made of white space.
pub open spec fn trailing_space(s: Seq<char>) -> nat
    decreases s.len(),
{
    if s.len() > 0 && white_space(s.last()) {
        1 + trailing_space(s.drop_last())
    } else {
        0
    }
}

/// `s` without its leading and trailing white space.
pub open spec fn trimmed(s: Seq<char>) -> Seq<char> {
    let head = s.skip(leading_space(s) as int);
    head.take(head.len() - trailing_space(head))
}

proof fn lemma_leading_space_exact(s: Seq<char>, k: nat)
    requires
        k <= s.len(),
        forall|i: int| 0 <= i < k ==> white_space(#[trigger] s[i]),
        k < s.len() ==> !white_space(s[k as int]),
    ensures
        leading_space(s) == k,
    decreases s.len(),
{
    if k > 0 {
        assert(white_space(s[0]));
        assert forall|i: int| 0 <= i < k - 1 implies white_space(#[trigger] s.drop_first()[i]) by {
            assert(s.drop_first()[i] == s[i + 1]);
        }
        if k - 1 < s.len() - 1 {
            assert(s.drop_first()[k - 1] == s[k as int]);
        }
        lemma_leading_space_exact(s.drop_first(), (k - 1) as nat);
    }
}

proof fn lemma_trailing_space_exact(s: Seq<char>, k: nat)
    requires
        k <= s.len(),
        forall|i: int| s.len() - k <= i < s.len() ==> white_space(#[trigger] s[i]),
        k < s.len() ==> !white_space(s[s.len() - k - 1]),
    ensures
        trailing_space(s) == k,
    decreases s.len(),
{
    if k > 0 {
        assert(white_space(s.last()));
        let t = s.drop_last();
        assert forall|i: int| t.len() - (k - 1) <= i < t.len() implies white_space(#[trigger] t[i]) by {
            assert(t[i] == s[i]);
        }
        if k - 1 < t.len() {
            assert(t[t.len() - (k - 1) - 1] == s[s.len() - k - 1]);
        }
        lemma_trailing_space_exact(t, (k - 1) as nat);
    }
}

/// The characters of `s` without leading and trailing white space.
pub fn trim_chars(s: &str) -> (out: Vec<char>)
    ensures
        out@ == trimmed(s@),
{
    let cs = chars_of(s);
    let n = cs.len();
    let mut lo: usize = 0;
    while lo < n && is_white_space(cs[lo])
        invariant
            lo <= n == cs@.len(),
            cs@ == s@,
            forall|i: int| 0 <= i < lo ==> white_space(#[trigger] cs@[i]),
        decreases n - lo,
    {
        lo = lo + 1;
    }
    proof {
        lemma_leading_space_exact(s@, lo as nat);
    }
    let mut hi: usize = n;
    while hi > lo && is_white_space(cs[hi - 1])
        invariant
            lo <= hi <= n == cs@.len(),
            cs@ == s@,
            forall|i: int| hi <= i < n ==> white_space(#[trigger] cs@[i]),
        decreases hi,
    {
        hi = hi - 1;
    }
    let ghost head = s@.skip(lo as int);
    proof {
        assert forall|i: int| head.len() - (n - hi) <= i < head.len() implies white_space(
            #[trigger] head[i],
        ) by {
            assert(head[i] == s@[i + lo]);
        }
        if n - hi < head.len() {
            assert(head[head.len() - (n - hi) - 1] == s@[hi - 1]);
        }
        lemma_trailing_space_exact(head, (n - hi) as nat);
    }
    let mut out: Vec<char> = Vec::new();
    let mut i: usize = lo;
    while i < hi
        invariant
            lo <= i <= hi <= n == cs@.len(),
            cs@ == s@,
            out@ == cs@.subrange(lo as int, i as int),
        decreases hi - i,
    {
        out.push(cs[i]);
        assert(cs@.subrange(lo as int, i + 1) == cs@.subrange(lo as int, i as int).push(cs@[i as int]));
        i = i + 1;
    }
    assert(out@ == head.take(head.len() - (n - hi)));
    out
}

/// The value of a string of decimal digits, most significant first.
pub open spec fn digits_value(s: Seq<char>) -> nat
    decreases s.len(),
{
    if s.len() == 0 {
        0
    } else {
        digits_value(s.drop_last()) * 10 + (s.last() as int - 48) as nat
    }
}

/// Every character of `s` is an ASCII decimal digit (`0` to `9`, code points 48 to 57).
pub open spec fn all_digits(s: Seq<char>) -> bool {
    forall|i: int| 0 <= i < s.len() ==> 48 <= #[trigger] s[i] as int <= 57
}

/// What parsing `s` as a `u64` gives, as the standard library documents it:
/// an optional `+`, then one or more decimal digits whose value fits in a `u64`.
pub open spec fn parse_decimal(s: Seq<char>) -> Option<u64> {
    let d = if s.len() > 0 && s[0] == '+' {
        s.drop_first()
    } else {
        s
    };
    if d.len() > 0 && all_digits(d) && digits_value(d) <= u64::MAX {
        Some(digits_value(d) as u64)
    } else {
        None
    }
}

proof fn lemma_parse_decimal_unfold(s: Seq<char>, d: Seq<char>)
    requires
        d == (if s.len() > 0 && s[0] == '+' { s.drop_first() } else { s }),
    ensures
        parse_decimal(s) == (if d.len() > 0 && all_digits(d) && digits_value(d) <= u64::MAX {
            Some(digits_value(d) as u64)
        } else {
            None
        }),
{
}

/// Parse the characters `s` as a `u64` in decimal.
pub fn parse_u64(s: &Vec<char>) -> (out: Option<u64>)
    ensures
        out == parse_decimal(s@),
{
    let n = s.len();
    let start: usize = if n > 0 && s[0] == '+' { 1 } else { 0 };
    let ghost d = if s@.len() > 0 && s@[0] == '+' { s@.drop_first() } else { s@ };
    assert(d == s@.skip(start as int));
    if start >= n {
        return None;
    }
    let mut acc: u64 = 0;
    let mut overflow = false;
    let mut i: usize = start;
    while i < n
        invariant
            start <= i <= n == s@.len(),
            d == s@.skip(start as int),
            d == (if s@.len() > 0 && s@[0] == '+' { s@.drop_first() } else { s@ }),
            all_digits(s@.subrange(start as int, i as int)),
            !overflow ==> acc == digits_value(s@.subrange(start as int, i as int)),
            overflow ==> digits_value(s@.subrange(start as int, i as int)) > u64::MAX,
        decreases n - i,
    {
        let c = s[i];
        let ghost pre = s@.subrange(start as int, i as int);
        let ghost next = s@.subrange(start as int, i + 1);
        assert(next.drop_last() == pre);
        assert(next.last() == c);
        if !('0' <= c && c <= '9') {
            assert(!all_digits(d)) by {
                assert(d[i - start] == c);
            }
            proof {
                lemma_parse_decimal_unfold(s@, d);
            }
            return None;
        }
        let dv: u64 = (c as u32 - 48) as u64;
        assert(dv == (c as int - 48));
        if !overflow {
            if acc > (u64::MAX - dv) / 10 {
                overflow = true;
                assert(digits_value(next) > u64::MAX) by (nonlinear_arith)
                    requires
                        digits_value(next) == acc * 10 + dv,
                        acc > (u64::MAX - dv) / 10,
                        dv <= 9,
                ;
            } else {
                assert(acc * 10 + dv <= u64::MAX) by (nonlinear_arith)
                    requires
                        acc <= (u64::MAX - dv) / 10,
                        dv <= 9,
                ;
                acc = acc * 10 + dv;
            }
        } else {
            assert(digits_value(next) >= digits_value(pre));
        }
        assert(all_digits(next)) by {
            assert forall|k: int| 0 <= k < next.len() implies 48 <= #[trigger] next[k] as int <= 57 by {
                if k < pre.len() {
                    assert(next[k] == pre[k]);
                }
            }
        }
        i = i + 1;
    }
    assert(s@.subrange(start as int, n as int) == d);
    if overflow {
        None
    } else {
        Some(acc)
    }
}


/// `needle` occurs somewhere in `hay`.
pub open spec fn contains_text(hay: Seq<char>, needle: Seq<char>) -> bool {
    exists|i: int| 0 <= i && i + needle.len() <= hay.len() && #[trigger] hay.subrange(i, i + needle.len()) == needle
}

/// `hay` ends with `tail`.
pub open spec fn ends_with_text(hay: Seq<char>, tail: Seq<char>) -> bool {
    tail.len() <= hay.len() && hay.subrange(hay.len() - tail.len(), hay.len() as int) == tail
}

fn chars_match_at(hay: &Vec<char>, needle: &Vec<char>, i: usize) -> (r: bool)
    requires
        i + needle@.len() <= hay@.len(),
    ensures
        r == (hay@.subrange(i as int, i + needle@.len()) == needle@),
{
    let n = needle.len();
    let hl = hay.len();
    let mut j: usize = 0;
    while j < n
        invariant
            j <= n == needle@.len(),
            hl == hay@.len(),
            i + n <= hay@.len(),
            forall|k: int| 0 <= k < j ==> hay@[i + k] == needle@[k],
        decreases n - j,
    {
        if hay[i + j] != needle[j] {
            assert(hay@.subrange(i as int, i + n)[j as int] != needle@[j as int]);
            return false;
        }
        j = j + 1;
    }
    assert(hay@.subrange(i as int, i + n) == needle@);
    true
}

/// Whether `needle` occurs in `hay`.
pub fn chars_contain(hay: &Vec<char>, needle: &Vec<char>) -> (r: bool)
    ensures
        r == contains_text(hay@, needle@),
{
    if needle.len() > hay.len() {
        return false;
    }
    let limit = hay.len() - needle.len();
    let mut i: usize = 0;
    while i <= limit
        invariant
            limit == hay@.len() - needle@.len(),
            i <= limit + 1,
            forall|k: int| 0 <= k < i ==> #[trigger] hay@.subrange(k, k + needle@.len()) != needle@,
        decreases limit + 1 - i,
    {
        if chars_match_at(hay, needle, i) {
            return true;
        }
        if i == limit {
            return false;
        }
        i = i + 1;
    }
    false
}

/// Whether `hay` ends with `tail`.
pub fn chars_end_with(hay: &Vec<char>, tail: &Vec<char>) -> (r: bool)
    ensures
        r == ends_with_text(hay@, tail@),
{
    if tail.len() > hay.len() {
        return false;
    }
    chars_match_at(hay, tail, hay.len() - tail.len())
}


/// The sixteen digit characters, in order of value.
pub open spec fn digit_chars() -> Seq<char> {
    seq!['0', '1', '2', '3', '4', '5', '6', '7', '8', '9', 'a', 'b', 'c', 'd', 'e', 'f']
}

/// Law: the character of a digit below sixteen is the digit's character in
/// `0123456789abcdef`.
pub proof fn law_digit_char(d: nat)
    requires
        d < 16,
    ensures
        digit_char(d) == digit_chars()[d as int],
{
    if d == 0 {
        assert(digit_char(d) == '0');
    } else if d == 1 {
        assert(digit_char(d) == '1');
    } else if d == 2 {
        assert(digit_char(d) == '2');
    } else if d == 3 {
        assert(digit_char(d) == '3');
    } else if d == 4 {
        assert(digit_char(d) == '4');
    } else if d == 5 {
        assert(digit_char(d) == '5');
    } else if d == 6 {
        assert(digit_char(d) == '6');
    } else if d == 7 {
        assert(digit_char(d) == '7');
    } else if d == 8 {
        assert(digit_char(d) == '8');
    } else if d == 9 {
        assert(digit_char(d) == '9');
    } else if d == 10 {
        assert(digit_char(d) == 'a');
    } else if d == 11 {
        assert(digit_char(d) == 'b');
    } else if d == 12 {
        assert(digit_char(d) == 'c');
    } else if d == 13 {
        assert(digit_char(d) == 'd');
    } else if d == 14 {
        assert(digit_char(d) == 'e');
    } else if d == 15 {
        assert(digit_char(d) == 'f');
    }
}

proof fn lemma_fixed_digits_digit(v: nat, n: nat, k: int)
    requires
        0 <= k < n,
    ensures
        fixed_digits(v, 16, n).len() == n,
        fixed_digits(v, 16, n)[k] == digit_char((v / pow(16, (n - 1 - k) as nat) as nat) % 16),
    decreases n,
{
    reveal(pow);
    lemma_fixed_digits_len(v / 16, (n - 1) as nat);
    assert(fixed_digits(v, 16, n) == fixed_digits(v / 16, 16, (n - 1) as nat) + seq![
        digit_char(v % 16),
    ]);
    if k == n - 1 {
        assert(pow(16, 0) == 1);
        assert(v / 1 == v);
    } else {
        lemma_fixed_digits_digit(v / 16, (n - 1) as nat, k);
        let e = (n - 2 - k) as nat;
        lemma_pow_positive(16, e);
        lemma_div_denominator(v as int, 16, pow(16, e));
        assert(pow(16, (e + 1) as nat) == 16 * pow(16, e));
        assert((n - 1 - k) as nat == (e + 1) as nat);
    }
}

proof fn lemma_fixed_digits_len(v: nat, n: nat)
    ensures
        fixed_digits(v, 16, n).len() == n,
    decreases n,
{
    if n > 0 {
        lemma_fixed_digits_len(v / 16, (n - 1) as nat);
        assert(fixed_digits(v, 16, n) == fixed_digits(v / 16, 16, (n - 1) as nat) + seq![
            digit_char(v % 16),
        ]);
    }
}

/// Law: the text of an address is `0x` followed by its sixteen hexadecimal
/// digits, most significant first, in lower case: character `2 + k` is the
/// digit of `(v / 16^(15 - k)) % 16`.
pub proof fn law_hex_address_text(v: u64)
    ensures
        hex_address_text(v).len() == 18,
        hex_address_text(v)[0] == '0',
        hex_address_text(v)[1] == 'x',
        forall|k: int|
            0 <= k < 16 ==> #[trigger] hex_address_text(v)[2 + k] == digit_chars()[((v as nat / pow(
                16,
                (15 - k) as nat,
            ) as nat) % 16) as int],
{
    lemma_fixed_digits_len(v as nat, 16);
    assert forall|k: int| 0 <= k < 16 implies #[trigger] hex_address_text(v)[2 + k]
        == digit_chars()[((v as nat / pow(16, (15 - k) as nat) as nat) % 16) as int] by {
        lemma_fixed_digits_digit(v as nat, 16, k);
        law_digit_char((v as nat / pow(16, (15 - k) as nat) as nat) % 16);
    }
}


/// Law: `decimal(v)` is the decimal digits of `v`, most significant first,
/// with no leading zero: character `k` of the `n` is the digit of
/// `(v / 10^(n - 1 - k)) % 10`, `v < 10^n`, and `v >= 10^(n - 1)` when `n > 1`.
pub proof fn law_decimal_digits(v: nat)
    ensures
        decimal(v).len() >= 1,
        v < pow(10, decimal(v).len()),
        decimal(v).len() > 1 ==> v >= pow(10, (decimal(v).len() - 1) as nat),
        forall|k: int|
            0 <= k < decimal(v).len() ==> #[trigger] decimal(v)[k] == digit_chars()[((v / pow(
                10,
                (decimal(v).len() - 1 - k) as nat,
            ) as nat) % 10) as int],
    decreases v,
{
    reveal(pow);
    if v < 10 {
        assert(pow(10, 0) == 1);
        assert(pow(10, 1) == 10) by {
            reveal_with_fuel(pow, 2);
        }
        law_digit_char(v);
        assert(v / 1 == v);
    } else {
        let w = v / 10;
        law_decimal_digits(w);
        let m = decimal(w).len();
        assert(decimal(v) == decimal(w) + seq![digit_char(v % 10)]);
        let n = decimal(v).len();
        assert(n == m + 1);
        assert(pow(10, n) == 10 * pow(10, m));
        assert(pow(10, m) == 10 * pow(10, (m - 1) as nat)) by {
            if m == 0 {
            }
        }
        assert forall|k: int| 0 <= k < n implies #[trigger] decimal(v)[k] == digit_chars()[((v / pow(
            10,
            (n - 1 - k) as nat,
        ) as nat) % 10) as int] by {
            if k == n - 1 {
                law_digit_char(v % 10);
                assert(pow(10, 0) == 1);
                assert(v / 1 == v);
            } else {
                assert(decimal(v)[k] == decimal(w)[k]);
                let e = (m - 1 - k) as nat;
                lemma_pow_positive(10, e);
                lemma_div_denominator(v as int, 10, pow(10, e));
                assert(pow(10, (e + 1) as nat) == 10 * pow(10, e));
                assert((n - 1 - k) as nat == (e + 1) as nat);
            }
        }
    }
}


/// `s` without a leading `+`, if it has one.
pub open spec fn without_plus(s: Seq<char>) -> Seq<char> {
    if s.len() > 0 && s[0] == '+' {
        s.drop_first()
    } else {
        s
    }
}

/// The characters `d` are the decimal digits of `v`, most significant first,
/// possibly after leading zeros: character `k` is the digit of
/// `(v / 10^(len - 1 - k)) % 10`, and `v < 10^len`.
pub open spec fn spells(d: Seq<char>, v: nat) -> bool {
    &&& v < pow(10, d.len())
    &&& forall|k: int|
        0 <= k < d.len() ==> #[trigger] d[k] as int == 48 + (v / pow(10, (d.len() - 1 - k) as nat)
            as nat) % 10
}

proof fn lemma_digits_spell_value(d: Seq<char>)
    requires
        all_digits(d),
    ensures
        spells(d, digits_value(d)),
    decreases d.len(),
{
    reveal(pow);
    if d.len() == 0 {
        assert(pow(10, 0) == 1);
    } else {
        let e = d.drop_last();
        assert(all_digits(e)) by {
            assert forall|i: int| 0 <= i < e.len() implies 48 <= #[trigger] e[i] as int <= 57 by {
                assert(e[i] == d[i]);
            }
        }
        lemma_digits_spell_value(e);
        let w = digits_value(e);
        let v = digits_value(d);
        let last = d.last();
        assert(48 <= last as int <= 57);
        assert(v == w * 10 + (last as int - 48));
        assert(v / 10 == w);
        assert(v % 10 == last as int - 48);
        assert(pow(10, d.len()) == 10 * pow(10, e.len()));
        assert forall|k: int| 0 <= k < d.len() implies #[trigger] d[k] as int == 48 + (v / pow(
            10,
            (d.len() - 1 - k) as nat,
        ) as nat) % 10 by {
            if k == d.len() - 1 {
                assert(pow(10, 0) == 1);
                assert(v / 1 == v);
            } else {
                assert(d[k] == e[k]);
                let x = (e.len() - 1 - k) as nat;
                lemma_pow_positive(10, x);
                lemma_div_denominator(v as int, 10, pow(10, x));
                assert(pow(10, (x + 1) as nat) == 10 * pow(10, x));
                assert((d.len() - 1 - k) as nat == (x + 1) as nat);
            }
        }
    }
}

proof fn lemma_spelled_value_unique(d: Seq<char>, v: nat)
    requires
        spells(d, v),
    ensures
        all_digits(d),
        v == digits_value(d),
    decreases d.len(),
{
    reveal(pow);
    if d.len() == 0 {
        assert(pow(10, 0) == 1);
    } else {
        let e = d.drop_last();
        assert(pow(10, d.len()) == 10 * pow(10, e.len()));
        let w = v / 10;
        assert(w < pow(10, e.len()));
        assert forall|k: int| 0 <= k < e.len() implies #[trigger] e[k] as int == 48 + (w / pow(
            10,
            (e.len() - 1 - k) as nat,
        ) as nat) % 10 by {
            assert(e[k] == d[k]);
            let x = (e.len() - 1 - k) as nat;
            lemma_pow_positive(10, x);
            lemma_div_denominator(v as int, 10, pow(10, x));
            assert(pow(10, (x + 1) as nat) == 10 * pow(10, x));
            assert((d.len() - 1 - k) as nat == (x + 1) as nat);
            assert(d[k] as int == 48 + (v / pow(10, (d.len() - 1 - k) as nat) as nat) % 10);
        }
        lemma_spelled_value_unique(e, w);
        assert(d[d.len() - 1] as int == 48 + (v / pow(10, 0) as nat) % 10);
        assert(pow(10, 0) == 1);
        assert(v / 1 == v);
        assert(all_digits(d)) by {
            assert forall|i: int| 0 <= i < d.len() implies 48 <= #[trigger] d[i] as int <= 57 by {
                if i < e.len() {
                    assert(d[i] == e[i]);
                } else {
                    assert(48 <= d[i] as int <= 57);
                }
            }
        }
    }
}

/// Law: a parsed number is what the digits spell: when parsing gives `v`, the
/// text after an optional `+` is non-empty and spells `v` in decimal.
pub proof fn law_parse_gives_spelled_value(s: Seq<char>)
    ensures
        parse_decimal(s) matches Some(v) ==> without_plus(s).len() > 0 && spells(without_plus(s), v as nat),
{
    let d = without_plus(s);
    if d.len() > 0 && all_digits(d) && digits_value(d) <= u64::MAX {
        lemma_digits_spell_value(d);
    }
}

/// Law: text that, after an optional `+`, spells a `u64` in decimal parses
/// as that number.
pub proof fn law_parse_reads_spelled_value(s: Seq<char>, v: u64)
    requires
        without_plus(s).len() > 0,
        spells(without_plus(s), v as nat),
    ensures
        parse_decimal(s) == Some(v),
{
    lemma_spelled_value_unique(without_plus(s), v as nat);
}


proof fn lemma_leading_space_facts(s: Seq<char>)
    ensures
        leading_space(s) <= s.len(),
        forall|i: int| 0 <= i < leading_space(s) ==> white_space(#[trigger] s[i]),
        leading_space(s) < s.len() ==> !white_space(s[leading_space(s) as int]),
    decreases s.len(),
{
    if s.len() > 0 && white_space(s[0]) {
        let t = s.drop_first();
        lemma_leading_space_facts(t);
        assert forall|i: int| 0 <= i < leading_space(s) implies white_space(#[trigger] s[i]) by {
            if i > 0 {
                assert(s[i] == t[i - 1]);
            }
        }
        if leading_space(s) < s.len() {
            assert(s[leading_space(s) as int] == t[leading_space(t) as int]);
        }
    }
}

proof fn lemma_trailing_space_facts(s: Seq<char>)
    ensures
        trailing_space(s) <= s.len(),
        forall|i: int| s.len() - trailing_space(s) <= i < s.len() ==> white_space(#[trigger] s[i]),
        trailing_space(s) < s.len() ==> !white_space(s[s.len() - trailing_space(s) - 1]),
    decreases s.len(),
{
    if s.len() > 0 && white_space(s.last()) {
        let t = s.drop_last();
        lemma_trailing_space_facts(t);
        assert forall|i: int| s.len() - trailing_space(s) <= i < s.len() implies white_space(
            #[trigger] s[i],
        ) by {
            if i < s.len() - 1 {
                assert(s[i] == t[i]);
            }
        }
        if trailing_space(s) < s.len() {
            assert(s[s.len() - trailing_space(s) - 1] == t[t.len() - trailing_space(t) - 1]);
        }
    }
}

/// Law: trimming keeps a contiguous stretch `s[a..b]` of the text and drops
/// only white space around it: every character before `a` and from `b` on is
/// white space, and the stretch, when not empty, neither starts nor ends with
/// white space (so text made only of white space trims to nothing).
pub proof fn law_trim_drops_only_outer_white_space(s: Seq<char>)
    ensures
        exists|a: int, b: int|
            {
                &&& 0 <= a <= b <= s.len()
                &&& #[trigger] s.subrange(a, b) == trimmed(s)
                &&& forall|i: int| 0 <= i < a ==> white_space(#[trigger] s[i])
                &&& forall|i: int| b <= i < s.len() ==> white_space(#[trigger] s[i])
                &&& a < b ==> !white_space(s[a]) && !white_space(s[b - 1])
            },
{
    lemma_leading_space_facts(s);
    let a = leading_space(s) as int;
    let head = s.skip(a);
    lemma_trailing_space_facts(head);
    let b = a + head.len() - trailing_space(head);
    assert(trimmed(s) =~= s.subrange(a, b));
    assert forall|i: int| b <= i < s.len() implies white_space(#[trigger] s[i]) by {
        assert(s[i] == head[i - a]);
    }
    if a < b {
        assert(s[a] == head[0]);
        assert(s[b - 1] == head[head.len() - trailing_space(head) - 1]);
    }
}

} // verus!
