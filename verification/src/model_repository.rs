//! The decisions taken while walking a Triton-style model repository:
//! which directory names are models, which are versions, how a model is
//! keyed, which backend loads it and how many instances it gets.
use vstd::prelude::*;

use crate::circuit_breaker::{may_be_open, CircuitBreaker};
use crate::config_types::ModelConfig;
use crate::text::{
    all_digits, chars_of, digit_value, digits_value, is_digit, parse_int_in, parse_u32,
};

verus! {

broadcast use vstd::seq_lib::group_to_multiset_ensures;

/// `char::is_alphanumeric` (Unicode `Alphabetic` or `Numeric`), which depends
/// on the character alone.
pub uninterp spec fn is_alphanumeric(c: char) -> bool;

/// An ASCII letter or digit.
pub open spec fn ascii_alnum(c: char) -> bool {
    ||| 0x30 <= (c as u32) <= 0x39
    ||| 0x41 <= (c as u32) <= 0x5A
    ||| 0x61 <= (c as u32) <= 0x7A
}

/// `char::is_alphanumeric`: the result is the property named above; for ASCII
/// characters it holds exactly of letters and digits.
#[verifier::external_body]
fn char_is_alphanumeric(c: char) -> (r: bool)
    ensures
        r == is_alphanumeric(c),
        (c as u32) < 0x80 ==> (r <==> ascii_alnum(c)),
{
    c.is_alphanumeric()
}

/// A character allowed in a model name: an ASCII letter or digit, `_`, `-`
/// or `.`, or, beyond ASCII, a character that `char::is_alphanumeric`
/// accepts.
pub open spec fn name_char_ok(c: char) -> bool {
    if (c as u32) < 0x80 {
        ascii_alnum(c) || c == '_' || c == '-' || c == '.'
    } else {
        is_alphanumeric(c)
    }
}

pub open spec fn has_double_dot(s: Seq<char>) -> bool {
    exists|i: int| 0 <= i < s.len() - 1 && s[i] == '.' && #[trigger] s[i + 1] == '.'
}

/// A directory name that may be served as a model: not empty, at most 128
/// bytes, made of alphanumerics, `_`, `-` and `.`, not starting with `.` and
/// holding no `..`.
pub open spec fn valid_model_name(name: &str) -> bool {
    &&& name@.len() > 0
    &&& name.len() <= 128
    &&& forall|i: int| 0 <= i < name@.len() ==> name_char_ok(#[trigger] name@[i])
    &&& name@[0] != '.'
    &&& !has_double_dot(name@)
}

/// ASCII letters of either case, digits, `_`, `-` and `.` are allowed in a
/// model name; so a name of 1 to 128 ASCII letters and digits is always a
/// model name.
pub proof fn law_ascii_names(c: char, name: &str)
    ensures
        (0x30 <= (c as u32) <= 0x39 || 0x41 <= (c as u32) <= 0x5A || 0x61 <= (c as u32) <= 0x7A
            || c == '_' || c == '-' || c == '.') ==> name_char_ok(c),
        (name@.len() > 0 && name.len() <= 128 && forall|i: int|
            0 <= i < name@.len() ==> (0x30 <= (#[trigger] name@[i] as u32) <= 0x39 || 0x41 <= (
            name@[i] as u32) <= 0x5A || 0x61 <= (name@[i] as u32) <= 0x7A)) ==> valid_model_name(name),
{
    if name@.len() > 0 && name.len() <= 128 && forall|i: int|
        0 <= i < name@.len() ==> (0x30 <= (#[trigger] name@[i] as u32) <= 0x39 || 0x41 <= (
        name@[i] as u32) <= 0x5A || 0x61 <= (name@[i] as u32) <= 0x7A) {
        assert forall|i: int| 0 <= i < name@.len() implies name_char_ok(#[trigger] name@[i]) by {}
        assert(name@[0] != '.');
        if has_double_dot(name@) {
            let i = choose|i: int| 0 <= i < name@.len() - 1 && name@[i] == '.' && #[trigger] name@[i + 1] == '.';
            assert(name@[i] == '.');
        }
    }
}

pub fn is_valid_model_name(name: &str) -> (r: bool)
    ensures
        r == valid_model_name(name),
{
    if name.is_empty() || name.len() > 128 {
        return false;
    }
    let cs = chars_of(name);
    let mut i: usize = 0;
    while i < cs.len()
        invariant
            i <= cs@.len(),
            cs@ == name@,
            name@.len() > 0,
            name.len() <= 128,
            forall|j: int| 0 <= j < i ==> name_char_ok(#[trigger] cs@[j]),
            forall|j: int| 0 <= j < i as int - 1 ==> !(cs@[j] == '.' && #[trigger] cs@[j + 1] == '.'),
        decreases cs.len() - i,
    {
        let c = cs[i];
        if !(char_is_alphanumeric(c) || c == '_' || c == '-' || c == '.') {
            assert(!name_char_ok(name@[i as int]));
            return false;
        }
        if i > 0 && c == '.' && cs[i - 1] == '.' {
            let ghost k: int = i - 1;
            assert(name@[k] == '.' && name@[k + 1] == '.');
            assert(has_double_dot(name@));
            return false;
        }
        i = i + 1;
    }
    assert(!has_double_dot(name@)) by {
        if has_double_dot(name@) {
            let k = choose|k: int| 0 <= k < name@.len() - 1 && name@[k] == '.' && #[trigger] name@[k + 1] == '.';
            assert(!(cs@[k] == '.' && cs@[k + 1] == '.'));
        }
    }
    cs[0] != '.'
}

pub open spec fn digit_char(d: int) -> char {
    if d == 0 {
        '0'
    } else if d == 1 {
        '1'
    } else if d == 2 {
        '2'
    } else if d == 3 {
        '3'
    } else if d == 4 {
        '4'
    } else if d == 5 {
        '5'
    } else if d == 6 {
        '6'
    } else if d == 7 {
        '7'
    } else if d == 8 {
        '8'
    } else {
        '9'
    }
}

/// The decimal digits of `n`, as `{}` prints an unsigned integer.
pub open spec fn decimal(n: nat) -> Seq<char>
    decreases n,
{
    if n < 10 {
        seq![digit_char(n as int)]
    } else {
        decimal(n / 10).push(digit_char((n % 10) as int))
    }
}

fn digit_exec(d: u32) -> (c: char)
    requires
        d < 10,
    ensures
        c == digit_char(d as int),
{
    match d {
        0 => '0',
        1 => '1',
        2 => '2',
        3 => '3',
        4 => '4',
        5 => '5',
        6 => '6',
        7 => '7',
        8 => '8',
        _ => '9',
    }
}

fn push_decimal(out: &mut std::string::String, n: u32)
    ensures
        final(out)@ == old(out)@ + decimal(n as nat),
    decreases n,
{
    if n >= 10 {
        push_decimal(out, n / 10);
    }
    out.push(digit_exec(n % 10));
    proof {
        if n < 10 {
            assert(decimal(n as nat) =~= seq![digit_char(n as int)]);
        }
    }
}

/// The key of a model version, `name@v<version>`.
pub open spec fn key_of(name: Seq<char>, version: u32) -> Seq<char> {
    name + seq!['@', 'v'] + decimal(version as nat)
}

pub fn model_key(name: &str, version: u32) -> (k: std::string::String)
    ensures
        k@ == key_of(name@, version),
{
    let mut k = name.to_owned();
    k.push('@');
    k.push('v');
    push_decimal(&mut k, version);
    assert(k@ =~= key_of(name@, version));
    k
}

proof fn lemma_decimal_digits(n: nat)
    ensures
        decimal(n).len() >= 1,
        all_digits(decimal(n)),
        digits_value(decimal(n)) == n,
    decreases n,
{
    let d = (n % 10) as int;
    assert(is_digit(digit_char(d)) && digit_value(digit_char(d)) == d) by {
        if d == 0 {} else if d == 1 {} else if d == 2 {} else if d == 3 {} else if d == 4 {}
        else if d == 5 {} else if d == 6 {} else if d == 7 {} else if d == 8 {} else {}
    }
    if n >= 10 {
        lemma_decimal_digits(n / 10);
        assert(decimal(n).drop_last() =~= decimal(n / 10));
        assert(decimal(n).last() == digit_char(d));
        assert(digits_value(decimal(n)) == digits_value(decimal(n / 10)) * 10 + digit_value(
            digit_char(d),
        ));
        assert(n == (n / 10) * 10 + d);
    } else {
        assert(decimal(n).drop_last() =~= Seq::<char>::empty());
        assert(digits_value(decimal(n)) == digits_value(Seq::<char>::empty()) * 10 + digit_value(
            digit_char(d),
        ));
        assert(d == n);
    }
}

/// A key names exactly one model version: two versions have the same key
/// only when they have the same name and the same number, so a table keyed
/// by keys holds one entry per (name, version).
pub proof fn law_model_key_injective(n1: Seq<char>, v1: u32, n2: Seq<char>, v2: u32)
    requires
        key_of(n1, v1) == key_of(n2, v2),
    ensures
        n1 == n2,
        v1 == v2,
{
    let d1 = decimal(v1 as nat);
    let d2 = decimal(v2 as nat);
    lemma_decimal_digits(v1 as nat);
    lemma_decimal_digits(v2 as nat);
    let k = key_of(n1, v1);
    let k2 = key_of(n2, v2);
    assert(k.len() == n1.len() + 2 + d1.len());
    assert(k2.len() == n2.len() + 2 + d2.len());
    if d1.len() < d2.len() {
        let p = n1.len() as int;
        assert(k[p] == '@');
        if p == n2.len() + 1 {
            assert(k2[p] == 'v');
        } else {
            let j = p - n2.len() - 2;
            assert(k2[p] == d2[j]);
            assert(is_digit(d2[j]));
        }
    } else if d2.len() < d1.len() {
        let p = n2.len() as int;
        assert(k2[p] == '@');
        if p == n1.len() + 1 {
            assert(k[p] == 'v');
        } else {
            let j = p - n1.len() - 2;
            assert(k[p] == d1[j]);
            assert(is_digit(d1[j]));
        }
    }
    assert(n1.len() == n2.len());
    assert forall|i: int| 0 <= i < n1.len() implies n1[i] == n2[i] by {
        assert(k[i] == n1[i]);
        assert(k2[i] == n2[i]);
    }
    assert(n1 =~= n2);
    assert forall|i: int| 0 <= i < d1.len() implies d1[i] == d2[i] by {
        assert(k[n1.len() + 2 + i] == d1[i]);
        assert(k2[n2.len() + 2 + i] == d2[i]);
    }
    assert(d1 =~= d2);
}

/// A directory entry of a model directory: its name and whether it is a directory.
pub struct DirEntry {
    pub name: std::string::String,
    pub is_dir: bool,
}

/// The versions that the entries `es` name: subdirectories whose names read
/// as a positive `u32`, in directory order.
pub open spec fn version_candidates(es: Seq<DirEntry>) -> Seq<u32>
    decreases es.len(),
{
    if es.len() == 0 {
        Seq::empty()
    } else {
        let prev = version_candidates(es.drop_last());
        let e = es.last();
        match parse_u32(e.name@) {
            Some(v) => if v > 0 && e.is_dir {
                prev.push(v)
            } else {
                prev
            },
            None => prev,
        }
    }
}

/// `s` is in ascending order.
pub open spec fn ascending(s: Seq<u32>) -> bool {
    forall|i: int, j: int| 0 <= i < j < s.len() ==> s[i] <= s[j]
}

fn parse_u32_exec(s: &[char]) -> (r: Option<u32>)
    ensures
        r == parse_u32(s@),
{
    if s.len() > 0 && s[0] == '-' {
        return None;
    }
    match parse_int_in(s, 0, u32::MAX as i128) {
        Some(n) => Some(n as u32),
        None => None,
    }
}

/// Inserts `x` into the ascending `v`, keeping it ascending.
fn insert_sorted(v: &mut Vec<u32>, x: u32)
    requires
        ascending(old(v)@),
    ensures
        ascending(final(v)@),
        final(v)@.to_multiset() == old(v)@.to_multiset().insert(x),
{
    let mut p: usize = 0;
    while p < v.len() && v[p] <= x
        invariant
            p <= v@.len(),
            forall|j: int| 0 <= j < p ==> v@[j] <= x,
        decreases v.len() - p,
    {
        p = p + 1;
    }
    let ghost before = v@;
    v.insert(p, x);
    proof {
        assert(v@ == before.insert(p as int, x));
        assert forall|i: int, j: int| 0 <= i < j < v@.len() implies v@[i] <= v@[j] by {
            if j < p {
                assert(v@[i] == before[i] && v@[j] == before[j]);
            } else if j == p {
                assert(v@[i] == before[i]);
            } else if i == p {
                assert(v@[j] == before[j - 1]);
                assert(p < before.len());
                assert(before[p as int] > x);
                if j - 1 > p {
                    assert(before[p as int] <= before[j - 1]);
                }
            } else if i < p {
                assert(v@[i] == before[i] && v@[j] == before[j - 1]);
            } else {
                assert(v@[i] == before[i - 1] && v@[j] == before[j - 1]);
            }
        }
    }
}

/// The model versions among the entries of a model directory, ascending
/// (`discover_versions` without the directory listing).
pub fn select_versions(entries: &Vec<DirEntry>) -> (r: Vec<u32>)
    ensures
        ascending(r@),
        r@.to_multiset() == version_candidates(entries@).to_multiset(),
{
    let mut r: Vec<u32> = Vec::new();
    let mut i: usize = 0;
    assert(entries@.take(0) =~= Seq::<DirEntry>::empty());
    while i < entries.len()
        invariant
            i <= entries@.len(),
            ascending(r@),
            r@.to_multiset() == version_candidates(entries@.take(i as int)).to_multiset(),
        decreases entries.len() - i,
    {
        let ghost t = entries@.take(i + 1);
        assert(t.drop_last() =~= entries@.take(i as int));
        let cs = chars_of(entries[i].name.as_str());
        match parse_u32_exec(cs.as_slice()) {
            Some(v) => {
                if v > 0 && entries[i].is_dir {
                    insert_sorted(&mut r, v);
                    assert(version_candidates(t) == version_candidates(entries@.take(i as int)).push(v));
                }
            },
            None => {},
        }
        i = i + 1;
    }
    assert(entries@.take(entries@.len() as int) =~= entries@);
    r
}

/// How a model version is loaded.
#[derive(Debug, Clone, Copy, PartialEq, Eq, Structural)]
pub enum Backend {
    /// A Rhai script, `model.rhai`.
    Script,
    /// A chain of other models, described by the configuration.
    Ensemble,
    /// An ONNX model, `model.onnx`.
    Onnx,
}

pub open spec fn backend_of(platform: Seq<char>) -> Backend {
    if platform == "script"@ {
        Backend::Script
    } else if platform == "ensemble"@ {
        Backend::Ensemble
    } else {
        Backend::Onnx
    }
}

/// The backend for a platform name: `script`, `ensemble`, anything else ONNX.
pub fn backend_for(platform: &str) -> (b: Backend)
    ensures
        b == backend_of(platform@),
{
    let p = chars_of(platform);
    if crate::config_types::is_literal(p.as_slice(), "script") {
        Backend::Script
    } else if crate::config_types::is_literal(p.as_slice(), "ensemble") {
        Backend::Ensemble
    } else {
        Backend::Onnx
    }
}

/// The platform of a model: the configured one, `onnxruntime_onnx` without configuration.
pub fn model_platform(config: &Option<ModelConfig>) -> (p: std::string::String)
    ensures
        p@ == (match config {
            Some(c) => c.platform@,
            None => "onnxruntime_onnx"@,
        }),
{
    match config {
        Some(c) => c.platform.clone(),
        None => "onnxruntime_onnx".to_owned(),
    }
}

/// The concurrency of a model: the count of its first instance group (as a
/// `u32`, so a negative count wraps), 4 without one.
pub fn model_concurrency(config: &Option<ModelConfig>) -> (n: u32)
    ensures
        n == (match config {
            Some(c) => if c.instance_groups@.len() > 0 {
                c.instance_groups@[0].count as u32
            } else {
                4
            },
            None => 4,
        }),
{
    match config {
        Some(c) => {
            if c.instance_groups.len() > 0 {
                c.instance_groups[0].count as u32
            } else {
                4
            }
        },
        None => 4,
    }
}

/// The number of runner instances for a requested concurrency: 4 when 0 is asked.
pub fn instance_count(concurrency: u32) -> (n: usize)
    ensures
        n == (if concurrency > 0 {
            concurrency as nat
        } else {
            4
        }),
{
    if concurrency > 0 {
        concurrency as usize
    } else {
        4
    }
}

/// What a repository scan does with one version of a model.
#[derive(Debug, Clone, Copy, PartialEq, Eq, Structural)]
pub enum VersionAction {
    /// The version's circuit is open: count a trip and leave it.
    SkipOpenCircuit,
    /// An ensemble cannot be built without its configuration.
    SkipMissingConfig,
    /// Load the version with this backend (scripts and ONNX models once their
    /// file is found).
    Load(Backend),
}

/// What to do with a version whose circuit is closed.
pub open spec fn load_action(backend: Backend, has_config: bool) -> VersionAction {
    if backend == Backend::Ensemble && !has_config {
        VersionAction::SkipMissingConfig
    } else {
        VersionAction::Load(backend)
    }
}

/// What to do with a version given whether its circuit is open: skip it
/// while open, otherwise as `load_action` says.
pub fn version_action(open: bool, backend: Backend, has_config: bool) -> (a: VersionAction)
    ensures
        a == (if open {
            VersionAction::SkipOpenCircuit
        } else {
            load_action(backend, has_config)
        }),
{
    if open {
        VersionAction::SkipOpenCircuit
    } else if backend == Backend::Ensemble && !has_config {
        VersionAction::SkipMissingConfig
    } else {
        VersionAction::Load(backend)
    }
}

/// Decides what to do with the version keyed `key` (see `model_key`) of a
/// model loaded by `backend`: `version_action` on whether the breaker
/// reports the key open now.
pub fn plan_version(cb: &CircuitBreaker, key: &str, backend: Backend, has_config: bool) -> (a:
    VersionAction)
    ensures
        a == VersionAction::SkipOpenCircuit ==> may_be_open(cb@, key@),
        a != VersionAction::SkipOpenCircuit ==> a == load_action(backend, has_config),
        !may_be_open(cb@, key@) ==> a == load_action(backend, has_config),
{
    version_action(cb.is_open(key), backend, has_config)
}

/// Records the outcome of loading the version keyed `key`: a success clears
/// its failures, a failure counts one more.
pub fn record_load(cb: &mut CircuitBreaker, key: &str, loaded: bool)
    requires
        !loaded ==> (old(cb)@.contains_key(key@) ==> old(cb)@[key@] < u32::MAX),
    ensures
        loaded ==> final(cb)@ == old(cb)@.remove(key@),
        !loaded ==> final(cb)@ == old(cb)@.insert(
            key@,
            ((if old(cb)@.contains_key(key@) {
                old(cb)@[key@]
            } else {
                0
            }) + 1) as u32,
        ),
{
    if loaded {
        cb.record_success(key);
    } else {
        cb.record_failure(key);
    }
}

} // verus!
