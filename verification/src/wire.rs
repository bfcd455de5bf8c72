//! The binary tensor encoding of inference requests: element type names,
//! shapes, and little-endian payloads.
use vstd::prelude::*;
use vstd::string::StringSliceAdditionalSpecFns;
use vstd::utf8::{decode_utf8, encode_utf8, valid_utf8};

use crate::config_types::is_literal;
use crate::text::{chars_of, joined};

verus! {

/// The element encodings an inference request may carry.
#[derive(Debug, Clone, Copy, PartialEq, Eq, Structural)]
pub enum WireType {
    /// IEEE 754 single precision, four bytes each.
    Fp32,
    /// Two's complement, four bytes each.
    Int32,
    /// Two's complement, eight bytes each.
    Int64,
    /// UTF-8 text.
    Bytes,
}

/// The encoding a request's `datatype` names, if any.
pub open spec fn wire_type_named(s: Seq<char>) -> Option<WireType> {
    if s == "FP32"@ || s == "FLOAT32"@ {
        Some(WireType::Fp32)
    } else if s == "INT32"@ {
        Some(WireType::Int32)
    } else if s == "INT64"@ {
        Some(WireType::Int64)
    } else if s == "BYTES"@ || s == "STRING"@ {
        Some(WireType::Bytes)
    } else {
        None
    }
}

/// The encoding named by `datatype`: `FP32`/`FLOAT32`, `INT32`, `INT64`,
/// `BYTES`/`STRING`; `None` for any other name.
pub fn wire_type(datatype: &str) -> (r: Option<WireType>)
    ensures
        r == wire_type_named(datatype@),
{
    let s = chars_of(datatype);
    if is_literal(s.as_slice(), "FP32") || is_literal(s.as_slice(), "FLOAT32") {
        Some(WireType::Fp32)
    } else if is_literal(s.as_slice(), "INT32") {
        Some(WireType::Int32)
    } else if is_literal(s.as_slice(), "INT64") {
        Some(WireType::Int64)
    } else if is_literal(s.as_slice(), "BYTES") || is_literal(s.as_slice(), "STRING") {
        Some(WireType::Bytes)
    } else {
        None
    }
}

/// Bytes per element (none for text).
pub open spec fn width_of(t: WireType) -> nat {
    match t {
        WireType::Fp32 => 4,
        WireType::Int32 => 4,
        WireType::Int64 => 8,
        WireType::Bytes => 0,
    }
}

impl WireType {
    /// The canonical name of the encoding.
    pub fn label(&self) -> (r: &'static str)
        ensures
            r@ == match *self {
                WireType::Fp32 => "FP32"@,
                WireType::Int32 => "INT32"@,
                WireType::Int64 => "INT64"@,
                WireType::Bytes => "BYTES"@,
            },
    {
        match self {
            WireType::Fp32 => "FP32",
            WireType::Int32 => "INT32",
            WireType::Int64 => "INT64",
            WireType::Bytes => "BYTES",
        }
    }
}

/// Each dimension of a shape as a `usize` (an `as` cast, as the request
/// decoder does).
pub open spec fn dims_of(shape: Seq<i64>) -> Seq<usize> {
    shape.map_values(|d: i64| d as usize)
}

/// `a * b`, saturating at `usize::MAX`.
pub open spec fn sat_mul(a: nat, b: nat) -> nat {
    if a * b > usize::MAX {
        usize::MAX as nat
    } else {
        a * b
    }
}

/// The product of the dimensions, folded from the left with saturating
/// multiplication; an empty shape counts as zero elements.
pub open spec fn sat_product(s: Seq<usize>) -> nat
    decreases s.len(),
{
    if s.len() == 0 {
        0
    } else if s.len() == 1 {
        s[0] as nat
    } else {
        sat_mul(sat_product(s.drop_last()), s.last() as nat)
    }
}

/// The dimensions of a request shape.
pub fn shape_dims(shape: &[i64]) -> (r: Vec<usize>)
    ensures
        r@ == dims_of(shape@),
{
    let mut r: Vec<usize> = Vec::new();
    let mut i: usize = 0;
    while i < shape.len()
        invariant
            i <= shape@.len(),
            r@ == dims_of(shape@).take(i as int),
        decreases shape.len() - i,
    {
        let d = shape[i] as usize;
        r.push(d);
        assert(r@ =~= dims_of(shape@).take(i + 1));
        i = i + 1;
    }
    assert(r@ =~= dims_of(shape@));
    r
}

/// The number of elements a shape holds: the saturating product of its
/// dimensions, zero for an empty shape.
pub fn element_count(dims: &[usize]) -> (n: usize)
    ensures
        n as nat == sat_product(dims@),
{
    if dims.len() == 0 {
        return 0;
    }
    let mut acc: usize = dims[0];
    let mut i: usize = 1;
    assert(dims@.take(1).drop_last() =~= Seq::<usize>::empty());
    assert(sat_product(dims@.take(1)) == dims@[0]);
    while i < dims.len()
        invariant
            1 <= i <= dims@.len(),
            acc as nat == sat_product(dims@.take(i as int)),
        decreases dims.len() - i,
    {
        assert(dims@.take(i + 1).drop_last() =~= dims@.take(i as int));
        acc = match acc.checked_mul(dims[i]) {
            Some(p) => p,
            None => usize::MAX,
        };
        i = i + 1;
    }
    assert(dims@.take(dims@.len() as int) =~= dims@);
    acc
}

/// The unsigned value of the four bytes of `b` from `at`, least significant
/// first.
pub open spec fn le32(b: Seq<u8>, at: int) -> int {
    b[at] + 256 * b[at + 1] + 65536 * b[at + 2] + 16777216 * b[at + 3]
}

/// The unsigned value of the eight bytes of `b` from `at`, least significant
/// first.
pub open spec fn le64(b: Seq<u8>, at: int) -> int {
    le32(b, at) + 4294967296 * le32(b, at + 4)
}

/// The four-byte words of `b`, as bit patterns.
pub open spec fn words32(b: Seq<u8>) -> Seq<u32> {
    Seq::new(b.len() / 4, |i: int| le32(b, 4 * i) as u32)
}

/// The four-byte two's complement integers of `b`.
pub open spec fn ints32(b: Seq<u8>) -> Seq<i32> {
    Seq::new(
        b.len() / 4,
        |i: int|
            {
                let u = le32(b, 4 * i);
                (if u < 0x8000_0000 {
                    u
                } else {
                    u - 0x1_0000_0000
                }) as i32
            },
    )
}

/// The eight-byte two's complement integers of `b`.
pub open spec fn ints64(b: Seq<u8>) -> Seq<i64> {
    Seq::new(
        b.len() / 8,
        |i: int|
            {
                let u = le64(b, 8 * i);
                (if u < 0x8000_0000_0000_0000 {
                    u
                } else {
                    u - 0x1_0000_0000_0000_0000
                }) as i64
            },
    )
}

fn word_at(raw: &[u8], at: usize) -> (w: u32)
    requires
        at + 4 <= raw@.len(),
    ensures
        w as int == le32(raw@, at as int),
{
    (raw[at] as u32) + (raw[at + 1] as u32) * 256 + (raw[at + 2] as u32) * 65536 + (raw[at + 3]
        as u32) * 16777216
}

fn dword_at(raw: &[u8], at: usize) -> (w: u64)
    requires
        at + 8 <= raw@.len(),
    ensures
        w as int == le64(raw@, at as int),
{
    let len = raw.len();
    assert(at + 4 <= len);
    let lo = word_at(raw, at);
    let hi = word_at(raw, at + 4);
    (lo as u64) + (hi as u64) * 4294967296
}

fn signed32(w: u32) -> (r: i32)
    ensures
        r as int == if w < 0x8000_0000 {
            w as int
        } else {
            w - 0x1_0000_0000
        },
{
    if w < 0x8000_0000 {
        w as i32
    } else {
        ((w - 0x8000_0000) as i32) - 0x7fff_ffff - 1
    }
}

fn signed64(w: u64) -> (r: i64)
    ensures
        r as int == if w < 0x8000_0000_0000_0000 {
            w as int
        } else {
            w - 0x1_0000_0000_0000_0000
        },
{
    if w < 0x8000_0000_0000_0000 {
        w as i64
    } else {
        ((w - 0x8000_0000_0000_0000) as i64) - 0x7fff_ffff_ffff_ffff - 1
    }
}

/// The four-byte words of `raw`, least significant byte first.
pub fn decode_words32(raw: &[u8]) -> (v: Vec<u32>)
    requires
        raw@.len() % 4 == 0,
    ensures
        v@ == words32(raw@),
{
    let len = raw.len();
    let n = len / 4;
    let mut v: Vec<u32> = Vec::new();
    let mut i: usize = 0;
    while i < n
        invariant
            n == raw@.len() / 4,
            len == raw@.len(),
            raw@.len() % 4 == 0,
            i <= n,
            v@.len() == i,
            forall|j: int| 0 <= j < i ==> v@[j] == words32(raw@)[j],
        decreases n - i,
    {
        assert(4 * i + 4 <= raw@.len());
        let w = word_at(raw, 4 * i);
        v.push(w);
        i = i + 1;
    }
    assert(v@ =~= words32(raw@));
    v
}

/// The four-byte two's complement integers of `raw`, least significant byte
/// first (`i32::from_le_bytes` on each chunk).
pub fn decode_i32s(raw: &[u8]) -> (v: Vec<i32>)
    requires
        raw@.len() % 4 == 0,
    ensures
        v@ == ints32(raw@),
{
    let len = raw.len();
    let n = len / 4;
    let mut v: Vec<i32> = Vec::new();
    let mut i: usize = 0;
    while i < n
        invariant
            n == raw@.len() / 4,
            len == raw@.len(),
            raw@.len() % 4 == 0,
            i <= n,
            v@.len() == i,
            forall|j: int| 0 <= j < i ==> v@[j] == ints32(raw@)[j],
        decreases n - i,
    {
        assert(4 * i + 4 <= raw@.len());
        let x = signed32(word_at(raw, 4 * i));
        v.push(x);
        i = i + 1;
    }
    assert(v@ =~= ints32(raw@));
    v
}

/// The eight-byte two's complement integers of `raw`, least significant byte
/// first (`i64::from_le_bytes` on each chunk).
pub fn decode_i64s(raw: &[u8]) -> (v: Vec<i64>)
    requires
        raw@.len() % 8 == 0,
    ensures
        v@ == ints64(raw@),
{
    let len = raw.len();
    let n = len / 8;
    let mut v: Vec<i64> = Vec::new();
    let mut i: usize = 0;
    while i < n
        invariant
            n == raw@.len() / 8,
            len == raw@.len(),
            raw@.len() % 8 == 0,
            i <= n,
            v@.len() == i,
            forall|j: int| 0 <= j < i ==> v@[j] == ints64(raw@)[j],
        decreases n - i,
    {
        assert(8 * i + 8 <= raw@.len());
        let x = signed64(dword_at(raw, 8 * i));
        v.push(x);
        i = i + 1;
    }
    assert(v@ =~= ints64(raw@));
    v
}

/// Why an input of an inference request was refused.
#[derive(Debug, Clone, Copy, PartialEq, Eq, Structural)]
pub enum InputError {
    /// The `datatype` names no known encoding.
    Unsupported,
    /// The payload is not a whole number of elements of this many bytes.
    Misaligned { width: usize },
    /// The shape holds `expected` elements, the payload `actual`.
    CountMismatch { expected: usize, actual: usize },
    /// A text payload is not UTF-8.
    InvalidUtf8,
}

/// A decoded input payload; single-precision values are kept as their bit
/// patterns.
pub enum RawTensor {
    Fp32Bits(Vec<u32>),
    Int32(Vec<i32>),
    Int64(Vec<i64>),
    Text(String),
}

/// The mathematical view of a decoded payload.
pub enum RawTensorView {
    Fp32Bits(Seq<u32>),
    Int32(Seq<i32>),
    Int64(Seq<i64>),
    Text(Seq<char>),
}

impl View for RawTensor {
    type V = RawTensorView;

    open spec fn view(&self) -> RawTensorView {
        match self {
            RawTensor::Fp32Bits(v) => RawTensorView::Fp32Bits(v@),
            RawTensor::Int32(v) => RawTensorView::Int32(v@),
            RawTensor::Int64(v) => RawTensorView::Int64(v@),
            RawTensor::Text(s) => RawTensorView::Text(s@),
        }
    }
}

/// What a payload of encoding `t` and the given shape decodes to: text must be
/// UTF-8; numbers must fill whole elements, exactly as many as the shape holds.
pub open spec fn decoded_payload(t: WireType, shape: Seq<i64>, raw: Seq<u8>) -> Result<
    RawTensorView,
    InputError,
> {
    let w = width_of(t);
    let total = sat_product(dims_of(shape));
    if t == WireType::Bytes {
        if valid_utf8(raw) {
            Ok(RawTensorView::Text(decode_utf8(raw)))
        } else {
            Err(InputError::InvalidUtf8)
        }
    } else if raw.len() % w != 0 {
        Err(InputError::Misaligned { width: w as usize })
    } else if raw.len() / w != total {
        Err(InputError::CountMismatch { expected: total as usize, actual: (raw.len() / w) as usize })
    } else if t == WireType::Fp32 {
        Ok(RawTensorView::Fp32Bits(words32(raw)))
    } else if t == WireType::Int32 {
        Ok(RawTensorView::Int32(ints32(raw)))
    } else {
        Ok(RawTensorView::Int64(ints64(raw)))
    }
}

/// What an input named by `datatype` decodes to.
pub open spec fn request_input(datatype: Seq<char>, shape: Seq<i64>, raw: Seq<u8>) -> Result<
    RawTensorView,
    InputError,
> {
    match wire_type_named(datatype) {
        None => Err(InputError::Unsupported),
        Some(t) => decoded_payload(t, shape, raw),
    }
}

/// Decodes one binary input of an inference request: its dimensions and its
/// payload, or why it was refused.
pub fn decode_input(datatype: &str, shape: &[i64], raw: &[u8]) -> (r: Result<
    (Vec<usize>, RawTensor),
    InputError,
>)
    ensures
        r is Ok <==> request_input(datatype@, shape@, raw@) is Ok,
        r matches Ok((d, t)) ==> d@ == dims_of(shape@) && request_input(datatype@, shape@, raw@)
            == Ok::<RawTensorView, InputError>(t@),
        r matches Err(e) ==> request_input(datatype@, shape@, raw@) == Err::<RawTensorView, InputError>(e),
{
    let dims = shape_dims(shape);
    let total = element_count(dims.as_slice());
    let t = match wire_type(datatype) {
        Some(t) => t,
        None => {
            return Err(InputError::Unsupported);
        },
    };
    let len = raw.len();
    match t {
        WireType::Bytes => {
            match core::str::from_utf8(raw) {
                Ok(s) => Ok((dims, RawTensor::Text(s.to_owned()))),
                Err(_) => Err(InputError::InvalidUtf8),
            }
        },
        WireType::Int64 => {
            if len % 8 != 0 {
                Err(InputError::Misaligned { width: 8 })
            } else if len / 8 != total {
                Err(InputError::CountMismatch { expected: total, actual: len / 8 })
            } else {
                Ok((dims, RawTensor::Int64(decode_i64s(raw))))
            }
        },
        _ => {
            if len % 4 != 0 {
                Err(InputError::Misaligned { width: 4 })
            } else if len / 4 != total {
                Err(InputError::CountMismatch { expected: total, actual: len / 4 })
            } else if t == WireType::Fp32 {
                Ok((dims, RawTensor::Fp32Bits(decode_words32(raw))))
            } else {
                Ok((dims, RawTensor::Int32(decode_i32s(raw))))
            }
        },
    }
}

/// The number of elements a decoded numeric payload holds (a text payload
/// counts as none).
pub open spec fn numeric_len(t: RawTensorView) -> nat {
    match t {
        RawTensorView::Fp32Bits(v) => v.len(),
        RawTensorView::Int32(v) => v.len(),
        RawTensorView::Int64(v) => v.len(),
        RawTensorView::Text(_) => 0,
    }
}

/// A numeric input decodes only when its payload holds exactly as many
/// elements as its shape: the decoded values number the (saturating) product
/// of the dimensions, and the payload is that many elements of four bytes
/// (`FP32`, `INT32`) or eight bytes (`INT64`). A payload with another length
/// is refused with `Misaligned` or `CountMismatch`.
pub proof fn law_numeric_count(datatype: Seq<char>, shape: Seq<i64>, raw: Seq<u8>)
    ensures
        request_input(datatype, shape, raw) matches Ok(t) ==> (t !is Text ==> numeric_len(t)
            == sat_product(dims_of(shape))),
        request_input(datatype, shape, raw) matches Ok(t) ==> (t is Fp32Bits ==> raw.len() == 4
            * sat_product(dims_of(shape))),
        request_input(datatype, shape, raw) matches Ok(t) ==> (t is Int32 ==> raw.len() == 4
            * sat_product(dims_of(shape))),
        request_input(datatype, shape, raw) matches Ok(t) ==> (t is Int64 ==> raw.len() == 8
            * sat_product(dims_of(shape))),
        (wire_type_named(datatype) matches Some(w) && w != WireType::Bytes && raw.len()
            != width_of(w) * sat_product(dims_of(shape))) ==> request_input(datatype, shape, raw) is Err,
{
}

/// A flattened JSON payload of `len` numbers fits a shape of `expected`
/// elements when the counts agree, or when the shape holds no elements.
pub fn check_data_len(len: usize, expected: usize) -> (r: Result<(), InputError>)
    ensures
        r is Ok <==> (len == expected || expected == 0),
        r is Err ==> r == Err::<(), InputError>(InputError::CountMismatch { expected, actual: len }),
{
    if len != expected && expected > 0 {
        Err(InputError::CountMismatch { expected, actual: len })
    } else {
        Ok(())
    }
}

/// The four bytes of a word, least significant first.
pub open spec fn word_bytes(w: u32) -> Seq<u8> {
    seq![(w % 256) as u8, ((w / 256) % 256) as u8, ((w / 65536) % 256) as u8, (w / 16777216) as u8]
}

/// The eight bytes of a double word, least significant first.
pub open spec fn dword_bytes(w: u64) -> Seq<u8> {
    word_bytes((w % 0x1_0000_0000) as u32) + word_bytes((w / 0x1_0000_0000) as u32)
}

/// Words laid out one after another, four bytes each.
pub open spec fn words_bytes(v: Seq<u32>) -> Seq<u8> {
    Seq::new(4 * v.len(), |j: int| word_bytes(v[j / 4])[j % 4])
}

/// Double words laid out one after another, eight bytes each.
pub open spec fn dwords_bytes(v: Seq<u64>) -> Seq<u8> {
    Seq::new(8 * v.len(), |j: int| dword_bytes(v[j / 8])[j % 8])
}

/// The two's complement bit pattern of `x`.
pub open spec fn unsigned32(x: i32) -> u32 {
    if x >= 0 {
        x as u32
    } else {
        (x + 0x1_0000_0000) as u32
    }
}

/// The two's complement bit pattern of `x`.
pub open spec fn unsigned64(x: i64) -> u64 {
    if x >= 0 {
        x as u64
    } else {
        (x + 0x1_0000_0000_0000_0000) as u64
    }
}

/// The bytes of four-byte integers (`i32::to_le_bytes` of each).
pub open spec fn i32s_bytes(v: Seq<i32>) -> Seq<u8> {
    words_bytes(v.map_values(|x: i32| unsigned32(x)))
}

/// The bytes of eight-byte integers (`i64::to_le_bytes` of each).
pub open spec fn i64s_bytes(v: Seq<i64>) -> Seq<u8> {
    dwords_bytes(v.map_values(|x: i64| unsigned64(x)))
}


/// The bytes a decoded payload is sent as.
pub open spec fn payload_bytes(t: RawTensorView) -> Seq<u8> {
    match t {
        RawTensorView::Fp32Bits(v) => words_bytes(v),
        RawTensorView::Int32(v) => i32s_bytes(v),
        RawTensorView::Int64(v) => i64s_bytes(v),
        RawTensorView::Text(s) => encode_utf8(s),
    }
}

proof fn lemma_word_bytes(w: u32)
    ensures
        word_bytes(w).len() == 4,
        le32(word_bytes(w), 0) == w,
{
    assert((w % 256) + 256 * ((w / 256) % 256) + 65536 * ((w / 65536) % 256) + 16777216 * (w
        / 16777216) == w) by (bit_vector);
    assert(w / 16777216 < 256) by (bit_vector);
}

proof fn lemma_dword_bytes(w: u64)
    ensures
        dword_bytes(w).len() == 8,
        le64(dword_bytes(w), 0) == w,
{
    let lo = (w % 0x1_0000_0000) as u32;
    let hi = (w / 0x1_0000_0000) as u32;
    assert((w % 0x1_0000_0000) + 0x1_0000_0000 * (w / 0x1_0000_0000) == w) by (bit_vector);
    assert(w / 0x1_0000_0000 <= 0xffff_ffff) by (bit_vector);
    lemma_word_bytes(lo);
    lemma_word_bytes(hi);
    let b = dword_bytes(w);
    assert(le32(b, 0) == le32(word_bytes(lo), 0));
    assert(le32(b, 4) == le32(word_bytes(hi), 0));
}

/// Words written out read back as the same words.
pub proof fn law_words_round_trip(v: Seq<u32>)
    ensures
        words_bytes(v).len() == 4 * v.len(),
        words32(words_bytes(v)) == v,
{
    let b = words_bytes(v);
    assert forall|i: int| 0 <= i < v.len() implies #[trigger] words32(b)[i] == v[i] by {
        lemma_word_bytes(v[i]);
        assert(b[4 * i] == word_bytes(v[i])[0]);
        assert(b[4 * i + 1] == word_bytes(v[i])[1]);
        assert(b[4 * i + 2] == word_bytes(v[i])[2]);
        assert(b[4 * i + 3] == word_bytes(v[i])[3]);
    }
    assert(words32(b) =~= v);
}

proof fn lemma_signed_of_unsigned32(x: i32)
    ensures
        (if (unsigned32(x) as int) < 0x8000_0000 {
            unsigned32(x) as int
        } else {
            unsigned32(x) - 0x1_0000_0000
        }) as i32 == x,
{
}

/// Four-byte integers written out read back as the same integers.
pub proof fn law_i32s_round_trip(v: Seq<i32>)
    ensures
        i32s_bytes(v).len() == 4 * v.len(),
        ints32(i32s_bytes(v)) == v,
{
    let u = v.map_values(|x: i32| unsigned32(x));
    let b = i32s_bytes(v);
    assert forall|i: int| 0 <= i < v.len() implies #[trigger] ints32(b)[i] == v[i] by {
        lemma_word_bytes(u[i]);
        let d = word_bytes(u[i]);
        assert forall|k: int| 0 <= k < 4 implies b[4 * i + k] == d[k] by {}
        assert(le32(b, 4 * i) == le32(d, 0));
        lemma_signed_of_unsigned32(v[i]);
    }
    assert(ints32(b) =~= v);
}

/// Eight-byte integers written out read back as the same integers.
pub proof fn law_i64s_round_trip(v: Seq<i64>)
    ensures
        i64s_bytes(v).len() == 8 * v.len(),
        ints64(i64s_bytes(v)) == v,
{
    let u = v.map_values(|x: i64| unsigned64(x));
    let b = i64s_bytes(v);
    assert forall|i: int| 0 <= i < v.len() implies #[trigger] ints64(b)[i] == v[i] by {
        lemma_dword_bytes(u[i]);
        let d = dword_bytes(u[i]);
        assert forall|k: int| 0 <= k < 8 implies b[8 * i + k] == d[k] by {}
        assert(le64(b, 8 * i) == le64(d, 0));
    }
    assert(ints64(b) =~= v);
}

/// A payload written out and decoded with its own type and a shape that
/// holds as many elements gives back the same payload.
pub proof fn law_payload_round_trip(t: RawTensorView, shape: Seq<i64>)
    requires
        match t {
            RawTensorView::Fp32Bits(v) => sat_product(dims_of(shape)) == v.len(),
            RawTensorView::Int32(v) => sat_product(dims_of(shape)) == v.len(),
            RawTensorView::Int64(v) => sat_product(dims_of(shape)) == v.len(),
            RawTensorView::Text(_) => true,
        },
    ensures
        request_input(payload_label(t), shape, payload_bytes(t)) == Ok::<RawTensorView, InputError>(t),
{
    reveal_strlit("FP32");
    reveal_strlit("FLOAT32");
    reveal_strlit("INT32");
    reveal_strlit("INT64");
    reveal_strlit("BYTES");
    reveal_strlit("STRING");
    assert("INT32"@[0] == 'I' && "FP32"@[0] == 'F' && "FLOAT32"@[0] == 'F');
    assert("INT64"@[3] == '6' && "INT32"@[3] == '3');
    assert("BYTES"@[0] == 'B' && "STRING"@[0] == 'S');
    match t {
        RawTensorView::Fp32Bits(v) => {
            law_words_round_trip(v);
            let b = words_bytes(v);
            assert(b.len() % 4 == 0 && b.len() / 4 == v.len());
            assert(wire_type_named("FP32"@) == Some(WireType::Fp32));
            assert(decoded_payload(WireType::Fp32, shape, b) == Ok::<RawTensorView, InputError>(
                RawTensorView::Fp32Bits(words32(b)),
            ));
        },
        RawTensorView::Int32(v) => {
            law_i32s_round_trip(v);
            let b = i32s_bytes(v);
            assert(b.len() % 4 == 0 && b.len() / 4 == v.len());
            assert(wire_type_named("INT32"@) == Some(WireType::Int32));
        },
        RawTensorView::Int64(v) => {
            law_i64s_round_trip(v);
            let b = i64s_bytes(v);
            assert(b.len() % 8 == 0 && b.len() / 8 == v.len());
            assert(wire_type_named("INT64"@) == Some(WireType::Int64));
        },
        RawTensorView::Text(s) => {
            vstd::utf8::encode_utf8_valid_utf8(s);
            vstd::utf8::encode_utf8_decode_utf8(s);
        },
    }
}

/// The `datatype` name a payload is sent under.
pub open spec fn payload_label(t: RawTensorView) -> Seq<char> {
    match t {
        RawTensorView::Fp32Bits(_) => "FP32"@,
        RawTensorView::Int32(_) => "INT32"@,
        RawTensorView::Int64(_) => "INT64"@,
        RawTensorView::Text(_) => "BYTES"@,
    }
}

fn push_word(out: &mut Vec<u8>, w: u32)
    ensures
        final(out)@ == old(out)@ + word_bytes(w),
{
    out.push((w % 256) as u8);
    out.push(((w / 256) % 256) as u8);
    out.push(((w / 65536) % 256) as u8);
    out.push((w / 16777216) as u8);
    assert(out@ =~= old(out)@ + word_bytes(w));
}

fn unsigned_of_i32(x: i32) -> (u: u32)
    ensures
        u == unsigned32(x),
{
    if x >= 0 {
        x as u32
    } else {
        ((x + 0x7fff_ffff + 1) as u32) + 0x8000_0000
    }
}

fn unsigned_of_i64(x: i64) -> (u: u64)
    ensures
        u == unsigned64(x),
{
    if x >= 0 {
        x as u64
    } else {
        ((x + 0x7fff_ffff_ffff_ffff + 1) as u64) + 0x8000_0000_0000_0000
    }
}

/// Appends the words of `v` as `words_bytes` lays them out.
fn push_words(out: &mut Vec<u8>, Ghost(v): Ghost<Seq<u32>>, w: u32)
    requires
        old(out)@ == words_bytes(v),
    ensures
        final(out)@ == words_bytes(v.push(w)),
{
    let ghost before = out@;
    push_word(out, w);
    proof {
        let n = v.len() as int;
        let b = words_bytes(v.push(w));
        assert forall|j: int| 0 <= j < out@.len() implies out@[j] == b[j] by {
            if j < 4 * n {
                assert(before[j] == word_bytes(v[j / 4])[j % 4]);
                assert(v.push(w)[j / 4] == v[j / 4]);
            } else {
                assert(j / 4 == n);
                assert(out@[j] == word_bytes(w)[j - 4 * n]);
            }
        }
        assert(out@ =~= b);
    }
}

/// The little-endian bytes of each word (`u32::to_le_bytes` of each, which is
/// also how `f32` values are sent, by their bit patterns).
pub fn encode_words32(v: &[u32]) -> (r: Vec<u8>)
    ensures
        r@ == words_bytes(v@),
{
    let mut r: Vec<u8> = Vec::new();
    let mut i: usize = 0;
    assert(words_bytes(v@.take(0)) =~= Seq::<u8>::empty());
    while i < v.len()
        invariant
            i <= v@.len(),
            r@ == words_bytes(v@.take(i as int)),
        decreases v.len() - i,
    {
        push_words(&mut r, Ghost(v@.take(i as int)), v[i]);
        assert(v@.take(i as int).push(v@[i as int]) =~= v@.take(i + 1));
        i = i + 1;
    }
    assert(v@.take(v@.len() as int) =~= v@);
    r
}

/// The little-endian bytes of each integer (`i32::to_le_bytes` of each).
pub fn encode_i32s(v: &[i32]) -> (r: Vec<u8>)
    ensures
        r@ == i32s_bytes(v@),
{
    let ghost u = v@.map_values(|x: i32| unsigned32(x));
    let mut r: Vec<u8> = Vec::new();
    let mut i: usize = 0;
    assert(words_bytes(u.take(0)) =~= Seq::<u8>::empty());
    while i < v.len()
        invariant
            i <= v@.len(),
            u == v@.map_values(|x: i32| unsigned32(x)),
            r@ == words_bytes(u.take(i as int)),
        decreases v.len() - i,
    {
        let w = unsigned_of_i32(v[i]);
        push_words(&mut r, Ghost(u.take(i as int)), w);
        assert(u.take(i as int).push(w) =~= u.take(i + 1));
        i = i + 1;
    }
    assert(u.take(v@.len() as int) =~= u);
    r
}

/// Appends a double word as `dwords_bytes` lays them out.
fn push_dwords(out: &mut Vec<u8>, Ghost(v): Ghost<Seq<u64>>, w: u64)
    requires
        old(out)@ == dwords_bytes(v),
    ensures
        final(out)@ == dwords_bytes(v.push(w)),
{
    let ghost before = out@;
    push_word(out, (w % 0x1_0000_0000) as u32);
    push_word(out, (w / 0x1_0000_0000) as u32);
    proof {
        let n = v.len() as int;
        let b = dwords_bytes(v.push(w));
        assert forall|j: int| 0 <= j < out@.len() implies out@[j] == b[j] by {
            if j < 8 * n {
                assert(before[j] == dword_bytes(v[j / 8])[j % 8]);
                assert(v.push(w)[j / 8] == v[j / 8]);
            } else {
                assert(j / 8 == n);
                assert(out@[j] == dword_bytes(w)[j - 8 * n]);
            }
        }
        assert(out@ =~= b);
    }
}

/// The little-endian bytes of each integer (`i64::to_le_bytes` of each).
pub fn encode_i64s(v: &[i64]) -> (r: Vec<u8>)
    ensures
        r@ == i64s_bytes(v@),
{
    let ghost u = v@.map_values(|x: i64| unsigned64(x));
    let mut r: Vec<u8> = Vec::new();
    let mut i: usize = 0;
    assert(dwords_bytes(u.take(0)) =~= Seq::<u8>::empty());
    while i < v.len()
        invariant
            i <= v@.len(),
            u == v@.map_values(|x: i64| unsigned64(x)),
            r@ == dwords_bytes(u.take(i as int)),
        decreases v.len() - i,
    {
        let w = unsigned_of_i64(v[i]);
        push_dwords(&mut r, Ghost(u.take(i as int)), w);
        assert(u.take(i as int).push(w) =~= u.take(i + 1));
        i = i + 1;
    }
    assert(u.take(v@.len() as int) =~= u);
    r
}

proof fn lemma_encode_utf8_concat(a: Seq<char>, b: Seq<char>)
    ensures
        encode_utf8(a + b) == encode_utf8(a) + encode_utf8(b),
    decreases a.len(),
{
    if a.len() == 0 {
        assert(a + b =~= b);
        assert(encode_utf8(a) + encode_utf8(b) =~= encode_utf8(b));
    } else {
        assert((a + b).drop_first() =~= a.drop_first() + b);
        assert((a + b)[0] == a[0]);
        lemma_encode_utf8_concat(a.drop_first(), b);
        assert(encode_utf8(a + b) =~= encode_utf8(a) + encode_utf8(b));
    }
}

/// The strings of `parts` run together, as UTF-8 bytes.
pub fn encode_texts(parts: &[String]) -> (r: Vec<u8>)
    ensures
        r@ == encode_utf8(joined(parts@.map_values(|s: String| s@))),
{
    let ghost views = parts@.map_values(|s: String| s@);
    let mut r: Vec<u8> = Vec::new();
    let mut i: usize = 0;
    assert(views.take(0) =~= Seq::<Seq<char>>::empty());
    while i < parts.len()
        invariant
            i <= parts@.len(),
            views == parts@.map_values(|s: String| s@),
            r@ == encode_utf8(joined(views.take(i as int))),
        decreases parts.len() - i,
    {
        let bytes = parts[i].as_str().as_bytes();
        let ghost before = r@;
        let mut k: usize = 0;
        while k < bytes.len()
            invariant
                k <= bytes@.len(),
                r@ == before + bytes@.take(k as int),
            decreases bytes.len() - k,
        {
            r.push(bytes[k]);
            assert(r@ =~= before + bytes@.take(k + 1));
            k = k + 1;
        }
        proof {
            assert(bytes@.take(bytes@.len() as int) =~= bytes@);
            assert(views.take(i + 1).drop_last() =~= views.take(i as int));
            assert(views.take(i + 1).last() == parts@[i as int]@);
            lemma_encode_utf8_concat(joined(views.take(i as int)), parts@[i as int]@);
        }
        i = i + 1;
    }
    assert(views.take(parts@.len() as int) =~= views);
    r
}

/// The bytes a decoded payload is sent as (its `payload_bytes`).
pub fn encode_payload(t: &RawTensor) -> (r: Vec<u8>)
    ensures
        r@ == payload_bytes(t@),
{
    match t {
        RawTensor::Fp32Bits(v) => encode_words32(v.as_slice()),
        RawTensor::Int32(v) => encode_i32s(v.as_slice()),
        RawTensor::Int64(v) => encode_i64s(v.as_slice()),
        RawTensor::Text(s) => {
            let bytes = s.as_str().as_bytes();
            let mut r: Vec<u8> = Vec::new();
            let mut k: usize = 0;
            while k < bytes.len()
                invariant
                    k <= bytes@.len(),
                    r@ == bytes@.take(k as int),
                decreases bytes.len() - k,
            {
                r.push(bytes[k]);
                assert(r@ =~= bytes@.take(k + 1));
                k = k + 1;
            }
            assert(bytes@.take(bytes@.len() as int) =~= bytes@);
            r
        },
    }
}

} // verus!
