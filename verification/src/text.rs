//! Character-level text handling: the subset of `str` behaviour that the
//! configuration and tokenizer code relies on, written over `Seq<char>`.
use vstd::prelude::*;
use vstd::utf8::{decode_utf8, valid_utf8};

verus! {

/// `String::push` appends one `char` to the end of the string; the contract
/// states exactly that over the string's character view.
pub assume_specification[ std::string::String::push ](string: &mut std::string::String, ch: char)
    ensures
        final(string)@ == old(string)@.push(ch),
;

/// Unicode `White_Space`, the property that `char::is_whitespace` and
/// `str::trim` go by.
pub open spec fn is_ws(c: char) -> bool {
    let u = c as u32;
    ||| 0x09 <= u <= 0x0D
    ||| u == 0x20
    ||| u == 0x85
    ||| u == 0xA0
    ||| u == 0x1680
    ||| 0x2000 <= u <= 0x200A
    ||| u == 0x2028
    ||| u == 0x2029
    ||| u == 0x202F
    ||| u == 0x205F
    ||| u == 0x3000
}

pub open spec fn trim_start(s: Seq<char>) -> Seq<char>
    decreases s.len(),
{
    if s.len() > 0 && is_ws(s[0]) {
        trim_start(s.drop_first())
    } else {
        s
    }
}

pub open spec fn trim_end(s: Seq<char>) -> Seq<char>
    decreases s.len(),
{
    if s.len() > 0 && is_ws(s.last()) {
        trim_end(s.drop_last())
    } else {
        s
    }
}

/// What `str::trim` leaves of `s`.
pub open spec fn trim(s: Seq<char>) -> Seq<char> {
    trim_end(trim_start(s))
}

/// What `str::trim_start_matches(c)` leaves of `s`.
pub open spec fn strip_leading(s: Seq<char>, c: char) -> Seq<char>
    decreases s.len(),
{
    if s.len() > 0 && s[0] == c {
        strip_leading(s.drop_first(), c)
    } else {
        s
    }
}

/// What `str::trim_end_matches(c)` leaves of `s`.
pub open spec fn strip_trailing(s: Seq<char>, c: char) -> Seq<char>
    decreases s.len(),
{
    if s.len() > 0 && s.last() == c {
        strip_trailing(s.drop_last(), c)
    } else {
        s
    }
}

/// `s` cut at every `sep`, as `str::split(sep)` does: `k` separators give
/// `k + 1` pieces, empty ones included.
pub open spec fn split_on(s: Seq<char>, sep: char) -> Seq<Seq<char>>
    decreases s.len(),
{
    if s.len() == 0 {
        seq![Seq::empty()]
    } else {
        let prev = split_on(s.drop_last(), sep);
        if s.last() == sep {
            prev.push(Seq::empty())
        } else {
            prev.update(prev.len() - 1, prev.last().push(s.last()))
        }
    }
}

pub open spec fn views(v: Seq<Vec<char>>) -> Seq<Seq<char>> {
    v.map_values(|x: Vec<char>| x@)
}

/// The characters of the strings of `parts`, one after another.
pub open spec fn joined(parts: Seq<Seq<char>>) -> Seq<char>
    decreases parts.len(),
{
    if parts.len() == 0 {
        Seq::empty()
    } else {
        joined(parts.drop_last()) + parts.last()
    }
}

/// The characters of each string.
pub open spec fn string_views(v: Seq<String>) -> Seq<Seq<char>> {
    v.map_values(|s: String| s@)
}

pub open spec fn is_digit(c: char) -> bool {
    0x30 <= (c as u32) <= 0x39
}

pub open spec fn all_digits(s: Seq<char>) -> bool {
    forall|i: int| 0 <= i < s.len() ==> is_digit(#[trigger] s[i])
}

pub open spec fn digit_value(c: char) -> int {
    (c as u32) - 0x30
}

/// The decimal value of a run of ASCII digits.
pub open spec fn digits_value(s: Seq<char>) -> int
    decreases s.len(),
{
    if s.len() == 0 {
        0
    } else {
        digits_value(s.drop_last()) * 10 + digit_value(s.last())
    }
}

/// The integer written in `s` in the syntax that `FromStr` accepts for a signed
/// integer type: an optional `+` or `-`, then one or more ASCII digits.
pub open spec fn int_literal(s: Seq<char>) -> Option<int> {
    if s.len() > 0 && (s[0] == '-' || s[0] == '+') {
        let d = s.drop_first();
        if d.len() > 0 && all_digits(d) {
            Some(
                if s[0] == '-' {
                    -digits_value(d)
                } else {
                    digits_value(d)
                },
            )
        } else {
            None
        }
    } else if s.len() > 0 && all_digits(s) {
        Some(digits_value(s))
    } else {
        None
    }
}

/// `s.parse::<i64>()`, as an `Option`.
pub open spec fn parse_i64(s: Seq<char>) -> Option<i64> {
    match int_literal(s) {
        Some(v) => if i64::MIN <= v <= i64::MAX {
            Some(v as i64)
        } else {
            None
        },
        None => None,
    }
}

/// `s.parse::<i32>()`, as an `Option`.
pub open spec fn parse_i32(s: Seq<char>) -> Option<i32> {
    match int_literal(s) {
        Some(v) => if i32::MIN <= v <= i32::MAX {
            Some(v as i32)
        } else {
            None
        },
        None => None,
    }
}

/// `s.parse::<u32>()`, as an `Option`: unsigned types take no `-` sign.
pub open spec fn parse_u32(s: Seq<char>) -> Option<u32> {
    if s.len() > 0 && s[0] == '-' {
        None
    } else {
        match int_literal(s) {
            Some(v) => if 0 <= v <= u32::MAX {
                Some(v as u32)
            } else {
                None
            },
            None => None,
        }
    }
}

pub proof fn lemma_digits_value_nonneg(s: Seq<char>)
    requires
        all_digits(s),
    ensures
        digits_value(s) >= 0,
    decreases s.len(),
{
    if s.len() > 0 {
        assert(all_digits(s.drop_last())) by {
            assert forall|i: int| 0 <= i < s.drop_last().len() implies is_digit(
                #[trigger] s.drop_last()[i],
            ) by {
                assert(s.drop_last()[i] == s[i]);
            }
        }
        lemma_digits_value_nonneg(s.drop_last());
        assert(is_digit(s[s.len() - 1]));
    }
}

/// A longer run of digits is worth at least as much as its prefix.
pub proof fn lemma_digits_value_prefix(s: Seq<char>, k: int)
    requires
        all_digits(s),
        0 <= k <= s.len(),
    ensures
        digits_value(s.take(k)) <= digits_value(s),
    decreases s.len() - k,
{
    if k < s.len() {
        lemma_digits_value_prefix(s, k + 1);
        let t = s.take(k + 1);
        assert(t.drop_last() =~= s.take(k));
        assert(all_digits(s.take(k))) by {
            assert forall|i: int| 0 <= i < s.take(k).len() implies is_digit(
                #[trigger] s.take(k)[i],
            ) by {
                assert(s.take(k)[i] == s[i]);
            }
        }
        lemma_digits_value_nonneg(s.take(k));
        assert(is_digit(s[k]));
        assert(t.last() == s[k]);
    } else {
        assert(s.take(k) =~= s);
    }
}

pub proof fn lemma_split_on_nonempty(s: Seq<char>, sep: char)
    ensures
        split_on(s, sep).len() >= 1,
    decreases s.len(),
{
    if s.len() > 0 {
        lemma_split_on_nonempty(s.drop_last(), sep);
    }
}

pub fn is_whitespace(c: char) -> (r: bool)
    ensures
        r == is_ws(c),
{
    let u = c as u32;
    (0x09 <= u && u <= 0x0D) || u == 0x20 || u == 0x85 || u == 0xA0 || u == 0x1680 || (0x2000
        <= u && u <= 0x200A) || u == 0x2028 || u == 0x2029 || u == 0x202F || u == 0x205F || u
        == 0x3000
}

/// The characters of `s`, in order.
pub fn chars_of(s: &str) -> (v: Vec<char>)
    ensures
        v@ == s@,
{
    let mut v: Vec<char> = Vec::new();
    for c in it: s.chars()
        invariant
            it.seq() == s@,
            v@ == it.seq().take(it.index() as int),
    {
        v.push(c);
        assert(v@ =~= it.seq().take(it.index() + 1));
    }
    assert(v@ =~= s@);
    v
}

/// A `String` holding exactly the characters of `v`.
pub fn string_of(v: &[char]) -> (s: String)
    ensures
        s@ == v@,
{
    let mut s = String::new();
    let mut i: usize = 0;
    while i < v.len()
        invariant
            i <= v@.len(),
            s@ == v@.take(i as int),
        decreases v.len() - i,
    {
        s.push(v[i]);
        assert(s@ =~= v@.take(i + 1));
        i = i + 1;
    }
    assert(v@.take(v@.len() as int) =~= v@);
    s
}

/// The characters `s[lo..hi]`.
pub fn copy_range(s: &[char], lo: usize, hi: usize) -> (r: Vec<char>)
    requires
        lo <= hi <= s@.len(),
    ensures
        r@ == s@.subrange(lo as int, hi as int),
{
    let mut r: Vec<char> = Vec::with_capacity(hi - lo);
    let mut i: usize = lo;
    while i < hi
        invariant
            lo <= i <= hi,
            hi <= s@.len(),
            r@ == s@.subrange(lo as int, i as int),
        decreases hi - i,
    {
        r.push(s[i]);
        assert(r@ =~= s@.subrange(lo as int, i + 1));
        i = i + 1;
    }
    r
}

/// Whether `a` and `b` hold the same characters.
pub fn same_chars(a: &[char], b: &[char]) -> (r: bool)
    ensures
        r == (a@ == b@),
{
    if a.len() != b.len() {
        return false;
    }
    let mut i: usize = 0;
    while i < a.len()
        invariant
            i <= a@.len(),
            a@.len() == b@.len(),
            a@.take(i as int) == b@.take(i as int),
        decreases a.len() - i,
    {
        if a[i] != b[i] {
            assert(a@[i as int] != b@[i as int]);
            return false;
        }
        assert(a@.take(i + 1) =~= a@.take(i as int).push(a@[i as int]));
        assert(b@.take(i + 1) =~= b@.take(i as int).push(b@[i as int]));
        i = i + 1;
    }
    assert(a@ =~= a@.take(i as int));
    assert(b@ =~= b@.take(i as int));
    true
}

/// Whether `p` is a prefix of `s` (`str::starts_with`).
pub fn starts_with(s: &[char], p: &[char]) -> (r: bool)
    ensures
        r == p@.is_prefix_of(s@),
{
    if p.len() > s.len() {
        return false;
    }
    let mut i: usize = 0;
    while i < p.len()
        invariant
            i <= p@.len() <= s@.len(),
            p@.take(i as int) == s@.take(i as int),
        decreases p.len() - i,
    {
        if p[i] != s[i] {
            assert(p@[i as int] != s@.subrange(0, p@.len() as int)[i as int]);
            return false;
        }
        assert(p@.take(i + 1) =~= p@.take(i as int).push(p@[i as int]));
        assert(s@.take(i + 1) =~= s@.take(i as int).push(s@[i as int]));
        i = i + 1;
    }
    assert(p@ =~= p@.take(i as int));
    assert(s@.subrange(0, p@.len() as int) =~= s@.take(i as int));
    true
}

/// `str::strip_prefix`: what follows `p` in `s`, when `s` starts with `p`.
pub fn strip_prefix(s: &[char], p: &[char]) -> (r: Option<Vec<char>>)
    ensures
        r is Some <==> p@.is_prefix_of(s@),
        r matches Some(v) ==> v@ == s@.skip(p@.len() as int),
{
    if starts_with(s, p) {
        let v = copy_range(s, p.len(), s.len());
        assert(v@ =~= s@.skip(p@.len() as int));
        Some(v)
    } else {
        None
    }
}

/// Whether `c` occurs in `s`.
pub fn contains_char(s: &[char], c: char) -> (r: bool)
    ensures
        r == s@.contains(c),
{
    let mut i: usize = 0;
    while i < s.len()
        invariant
            i <= s@.len(),
            forall|j: int| 0 <= j < i ==> s@[j] != c,
        decreases s.len() - i,
    {
        if s[i] == c {
            assert(s@[i as int] == c);
            return true;
        }
        i = i + 1;
    }
    false
}

/// Whether the last character of `s` is `c`.
pub fn ends_with_char(s: &[char], c: char) -> (r: bool)
    ensures
        r == (s@.len() > 0 && s@.last() == c),
{
    s.len() > 0 && s[s.len() - 1] == c
}

/// `str::trim`.
pub fn trim_chars(s: &[char]) -> (r: Vec<char>)
    ensures
        r@ == trim(s@),
{
    let n = s.len();
    let mut i: usize = 0;
    assert(s@.skip(0) =~= s@);
    while i < n && is_whitespace(s[i])
        invariant
            i <= n == s@.len(),
            trim_start(s@) == trim_start(s@.skip(i as int)),
        decreases n - i,
    {
        assert(s@.skip(i as int).drop_first() =~= s@.skip(i + 1));
        i = i + 1;
    }
    assert(trim_start(s@.skip(i as int)) == s@.skip(i as int)) by {
        if i < n {
            assert(s@.skip(i as int)[0] == s@[i as int]);
        }
    }
    let mut j: usize = n;
    while j > i && is_whitespace(s[j - 1])
        invariant
            i <= j <= n == s@.len(),
            trim_end(s@.subrange(i as int, n as int)) == trim_end(s@.subrange(i as int, j as int)),
        decreases j - i,
    {
        assert(s@.subrange(i as int, j as int).drop_last() =~= s@.subrange(i as int, j - 1));
        j = j - 1;
    }
    assert(trim_end(s@.subrange(i as int, j as int)) == s@.subrange(i as int, j as int));
    assert(s@.skip(i as int) =~= s@.subrange(i as int, n as int));
    copy_range(s, i, j)
}

/// `str::trim_start_matches(c)` followed by `str::trim_end_matches(d)`.
pub fn strip_around(s: &[char], c: char, d: char) -> (r: Vec<char>)
    ensures
        r@ == strip_trailing(strip_leading(s@, c), d),
{
    let n = s.len();
    let mut i: usize = 0;
    assert(s@.skip(0) =~= s@);
    while i < n && s[i] == c
        invariant
            i <= n == s@.len(),
            strip_leading(s@, c) == strip_leading(s@.skip(i as int), c),
        decreases n - i,
    {
        assert(s@.skip(i as int).drop_first() =~= s@.skip(i + 1));
        i = i + 1;
    }
    assert(strip_leading(s@.skip(i as int), c) == s@.skip(i as int)) by {
        if i < n {
            assert(s@.skip(i as int)[0] == s@[i as int]);
        }
    }
    let mut j: usize = n;
    while j > i && s[j - 1] == d
        invariant
            i <= j <= n == s@.len(),
            strip_trailing(s@.subrange(i as int, n as int), d) == strip_trailing(
                s@.subrange(i as int, j as int),
                d,
            ),
        decreases j - i,
    {
        assert(s@.subrange(i as int, j as int).drop_last() =~= s@.subrange(i as int, j - 1));
        j = j - 1;
    }
    assert(strip_trailing(s@.subrange(i as int, j as int), d) == s@.subrange(i as int, j as int));
    assert(s@.skip(i as int) =~= s@.subrange(i as int, n as int));
    copy_range(s, i, j)
}

/// `str::trim_end_matches(d)`.
pub fn strip_end(s: &[char], d: char) -> (r: Vec<char>)
    ensures
        r@ == strip_trailing(s@, d),
{
    let n = s.len();
    let mut j: usize = n;
    assert(s@.subrange(0, n as int) =~= s@);
    while j > 0 && s[j - 1] == d
        invariant
            j <= n == s@.len(),
            strip_trailing(s@, d) == strip_trailing(s@.subrange(0, j as int), d),
        decreases j,
    {
        assert(s@.subrange(0, j as int).drop_last() =~= s@.subrange(0, j - 1));
        j = j - 1;
    }
    assert(strip_trailing(s@.subrange(0, j as int), d) == s@.subrange(0, j as int));
    copy_range(s, 0, j)
}

/// `str::split(sep)`, collected.
pub fn split_chars(s: &[char], sep: char) -> (r: Vec<Vec<char>>)
    ensures
        views(r@) == split_on(s@, sep),
{
    let mut parts: Vec<Vec<char>> = Vec::new();
    let mut cur: Vec<char> = Vec::new();
    let mut i: usize = 0;
    assert(s@.take(0) =~= Seq::<char>::empty());
    assert(views(parts@).push(cur@) =~= split_on(s@.take(0), sep));
    while i < s.len()
        invariant
            i <= s@.len(),
            views(parts@).push(cur@) == split_on(s@.take(i as int), sep),
        decreases s.len() - i,
    {
        let c = s[i];
        let ghost t = s@.take(i + 1);
        assert(t.drop_last() =~= s@.take(i as int));
        assert(t.last() == c);
        if c == sep {
            let ghost before = parts@;
            let mut done: Vec<char> = Vec::new();
            std::mem::swap(&mut done, &mut cur);
            parts.push(done);
            assert(views(parts@) =~= views(before).push(done@));
            assert(views(parts@).push(cur@) =~= split_on(t, sep));
        } else {
            let ghost prev = views(parts@).push(cur@);
            cur.push(c);
            assert(views(parts@).push(cur@) =~= prev.update(prev.len() - 1, prev.last().push(c)));
        }
        i = i + 1;
    }
    parts.push(cur);
    assert(s@.take(s@.len() as int) =~= s@);
    proof {
        let ghost pv = views(parts@);
        assert(pv =~= views(parts@.drop_last()).push(parts@.last()@));
    }
    parts
}

/// The value of the signed integer literal in `s`, when it lies in `lo..=hi`.
pub fn parse_int_in(s: &[char], lo: i128, hi: i128) -> (r: Option<i128>)
    requires
        -0x1_0000_0000_0000_0000 <= lo <= hi <= 0x1_0000_0000_0000_0000,
    ensures
        r == (match int_literal(s@) {
            Some(v) => if lo <= v <= hi {
                Some(v as i128)
            } else {
                None
            },
            None => None,
        }),
{
    let n = s.len();
    if n == 0 {
        return None;
    }
    let neg = s[0] == '-';
    let start: usize = if s[0] == '-' || s[0] == '+' {
        1
    } else {
        0
    };
    if start == n {
        return None;
    }
    let ghost d = s@.skip(start as int);
    let mut mag: i128 = 0;
    let mut i: usize = start;
    while i < n
        invariant
            start <= i <= n == s@.len(),
            start < n,
            start == (if s@[0] == '-' || s@[0] == '+' { 1usize } else { 0usize }),
            neg == (s@[0] == '-'),
            -0x1_0000_0000_0000_0000 <= lo <= hi <= 0x1_0000_0000_0000_0000,
            d == s@.skip(start as int),
            all_digits(d.take(i - start)),
            mag == digits_value(d.take(i - start)),
            0 <= mag <= 0x1_0000_0000_0000_0000,
        decreases n - i,
    {
        let c = s[i];
        let u = c as u32;
        if u < 0x30 || u > 0x39 {
            assert(!is_digit(d[i - start]));
            assert(!all_digits(d));
            proof {
                if start == 1 {
                    assert(d =~= s@.drop_first());
                } else {
                    assert(d =~= s@);
                }
            }
            return None;
        }
        let ghost t = d.take(i - start + 1);
        assert(t.drop_last() =~= d.take(i - start));
        assert(t.last() == c);
        assert(all_digits(t)) by {
            assert forall|k: int| 0 <= k < t.len() implies is_digit(#[trigger] t[k]) by {
                if k < t.len() - 1 {
                    assert(t[k] == d.take(i - start)[k]);
                }
            }
        }
        let next: i128 = mag * 10 + (u - 0x30) as i128;
        assert(digits_value(t) == next);
        if next > 0x1_0000_0000_0000_0000 {
            // the value already exceeds every bound; more digits only make it larger
            proof {
                if start == 1 {
                    assert(d =~= s@.drop_first());
                } else {
                    assert(d =~= s@);
                }
                if all_digits(d) {
                    lemma_digits_value_prefix(d, i - start + 1);
                    assert(d.take(i - start + 1) == t);
                }
            }
            return None;
        }
        mag = next;
        i = i + 1;
    }
    assert(d.take(n - start) =~= d);
    proof {
        if start == 1 {
            assert(d =~= s@.drop_first());
        } else {
            assert(d =~= s@);
        }
    }
    let v: i128 = if neg {
        -mag
    } else {
        mag
    };
    if lo <= v && v <= hi {
        Some(v)
    } else {
        None
    }
}

/// `std::str::Utf8Error`, the error of `std::str::from_utf8`.
#[verifier::external_type_specification]
#[verifier::external_body]
pub struct ExUtf8Error(core::str::Utf8Error);

/// `std::str::from_utf8` succeeds exactly on well-formed UTF-8, and the string
/// it returns holds the characters that those bytes encode.
pub assume_specification[ core::str::from_utf8 ](v: &[u8]) -> (r: Result<&str, core::str::Utf8Error>)
    ensures
        r is Ok <==> valid_utf8(v@),
        r matches Ok(s) ==> s@ == decode_utf8(v@),
;

/// Where a byte string stops being UTF-8: the bytes before `valid_up_to` are
/// well-formed, and `error_len` is the length of the invalid sequence that
/// starts there, or `None` where the input ends inside a sequence.
#[derive(Debug, Clone, Copy, PartialEq, Eq)]
pub struct Utf8Fault {
    pub valid_up_to: usize,
    pub error_len: Option<usize>,
}

/// `n` is the longest prefix of `v` that is well-formed UTF-8.
pub open spec fn fault_at(v: Seq<u8>, n: int) -> bool {
    &&& 0 <= n <= v.len()
    &&& valid_utf8(v.take(n))
    &&& forall|m: int| n < m <= v.len() ==> !valid_utf8(#[trigger] v.take(m))
}

/// `std::str::from_utf8`, read for where it fails: `None` exactly on
/// well-formed UTF-8; otherwise the error's `valid_up_to`, which its
/// documentation gives as the longest prefix that decodes, and its
/// `error_len`, of which only that it is a non-empty run inside the input is
/// stated (which lengths the decoder reports is not).
#[verifier::external_body]
pub(crate) fn utf8_fault(v: &[u8]) -> (r: Option<Utf8Fault>)
    ensures
        r is None <==> valid_utf8(v@),
        r matches Some(f) ==> fault_at(v@, f.valid_up_to as int),
        r matches Some(f) ==> (f.error_len matches Some(k) ==> 1 <= k && f.valid_up_to + k <= v@.len()),
{
    match core::str::from_utf8(v) {
        Ok(_) => None,
        Err(e) => Some(Utf8Fault { valid_up_to: e.valid_up_to(), error_len: e.error_len() }),
    }
}

pub proof fn lemma_split_on_len(s: Seq<char>, sep: char)
    ensures
        split_on(s, sep).len() <= s.len() + 1,
    decreases s.len(),
{
    if s.len() > 0 {
        lemma_split_on_len(s.drop_last(), sep);
        lemma_split_on_nonempty(s.drop_last(), sep);
    }
}

} // verus!
