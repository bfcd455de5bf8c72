//! A WordPiece tokenizer over a BERT-style `vocab.txt`.
use vstd::prelude::*;
use vstd::hash_map::StringHashMap;

use crate::text::{
    chars_of, copy_range, is_whitespace, is_ws, lemma_split_on_len, lemma_split_on_nonempty,
    joined, split_chars, split_on, string_of, string_views, trim, trim_chars, views,
};

verus! {

/// Whether `serde_json` accepts `text` as a JSON document.
pub uninterp spec fn json_accepts(text: Seq<char>) -> bool;

/// The message of the error that `serde_json` reports on `text` (its
/// `Display`: what went wrong, with the line and column).
pub uninterp spec fn json_error_text(text: Seq<char>) -> Seq<char>;

/// `serde_json::from_str::<Value>`: succeeds exactly on the texts that
/// `serde_json` reads as JSON, which depends on the text alone; on failure it
/// hands back the error's message, which depends on the text alone too.
/// Nothing is stated of the value it builds, which is dropped.
#[verifier::external_body]
fn json_parse(text: &str) -> (r: Result<(), String>)
    ensures
        r is Ok == json_accepts(text@),
        r matches Err(m) ==> m@ == json_error_text(text@),
{
    match serde_json::from_str::<serde_json::Value>(text) {
        Ok(_) => Ok(()),
        Err(e) => Err(e.to_string()),
    }
}

/// What `serde_json` reads, in the JSON document `text`, as the string member
/// `key` of the object member `outer` of the top-level value (`None` when the
/// text is not JSON, a member is missing or the value is not a string).
pub uninterp spec fn json_nested_str(text: Seq<char>, outer: Seq<char>, key: Seq<char>) -> Option<
    Seq<char>,
>;

/// What `serde_json` reads, in the JSON document `text`, as the member `key`
/// of the object member `outer` of the top-level value, when that is an
/// integer that fits a `u64` (`None` otherwise).
pub uninterp spec fn json_nested_u64(text: Seq<char>, outer: Seq<char>, key: Seq<char>) -> Option<
    u64,
>;

/// `serde_json::from_str::<Value>` then `value[outer][key].as_str()`
/// (indexing gives `Null` for a missing member and never panics). The result
/// depends on the three strings alone and is named `json_nested_str`.
#[verifier::external_body]
fn json_str_at(text: &str, outer: &str, key: &str) -> (r: Option<String>)
    ensures
        match r {
            Some(s) => json_nested_str(text@, outer@, key@) == Some(s@),
            None => json_nested_str(text@, outer@, key@) is None,
        },
{
    match serde_json::from_str::<serde_json::Value>(text) {
        Ok(v) => match v[outer][key].as_str() {
            Some(s) => Some(s.to_owned()),
            None => None,
        },
        Err(_) => None,
    }
}

/// `serde_json::from_str::<Value>` then `value[outer][key].as_u64()`. The
/// result depends on the three strings alone and is named `json_nested_u64`.
#[verifier::external_body]
fn json_u64_at(text: &str, outer: &str, key: &str) -> (r: Option<u64>)
    ensures
        r == json_nested_u64(text@, outer@, key@),
{
    match serde_json::from_str::<serde_json::Value>(text) {
        Ok(v) => v[outer][key].as_u64(),
        Err(_) => None,
    }
}

/// The string held, or `default`.
pub open spec fn str_or(o: Option<Seq<char>>, default: Seq<char>) -> Seq<char> {
    match o {
        Some(s) => s,
        None => default,
    }
}

/// Why a tokenizer could not be built.
#[derive(Debug, Clone, PartialEq, Eq)]
pub enum TokenizerError {
    /// `tokenizer.json` is not JSON; `message` is what the JSON reader said.
    InvalidJson { message: String },
}

/// The vocabulary of a `vocab.txt`: each non-blank line, trimmed, maps to its
/// line number; a token that occurs twice keeps its last line.
pub open spec fn vocab_of(lines: Seq<Seq<char>>) -> Map<Seq<char>, i64>
    decreases lines.len(),
{
    if lines.len() == 0 {
        Map::empty()
    } else {
        let m = vocab_of(lines.drop_last());
        let t = trim(lines.last());
        if t.len() == 0 {
            m
        } else {
            m.insert(t, (lines.len() - 1) as i64)
        }
    }
}

/// The id of `t`, or `default` when the vocabulary lacks it.
pub open spec fn id_or(vocab: Map<Seq<char>, i64>, t: Seq<char>, default: i64) -> i64 {
    if vocab.contains_key(t) {
        vocab[t]
    } else {
        default
    }
}

/// The ASCII punctuation that stands as a word of its own (all of it but `-` and `#`).
pub open spec fn is_split_punct(c: char) -> bool {
    let u = c as u32;
    &&& (0x21 <= u <= 0x2F || 0x3A <= u <= 0x40 || 0x5B <= u <= 0x60 || 0x7B <= u <= 0x7E)
    &&& c != '-'
    &&& c != '#'
}

/// The words read so far and the word being read, after the characters `s`.
pub open spec fn words_state(s: Seq<char>) -> (Seq<Seq<char>>, Seq<char>)
    decreases s.len(),
{
    if s.len() == 0 {
        (Seq::empty(), Seq::empty())
    } else {
        let (ws, cur) = words_state(s.drop_last());
        let c = s.last();
        if is_ws(c) {
            if cur.len() > 0 {
                (ws.push(cur), Seq::empty())
            } else {
                (ws, Seq::empty())
            }
        } else if is_split_punct(c) {
            let ws2 = if cur.len() > 0 {
                ws.push(cur)
            } else {
                ws
            };
            (ws2.push(seq![c]), Seq::empty())
        } else {
            (ws, cur.push(c))
        }
    }
}

/// The words of `s`: runs of other characters, separated by whitespace, with
/// each splitting punctuation mark a word of its own.
pub open spec fn split_words(s: Seq<char>) -> Seq<Seq<char>> {
    let (ws, cur) = words_state(s);
    if cur.len() > 0 {
        ws.push(cur)
    } else {
        ws
    }
}

/// The characters of `s` that are not whitespace, in order.
pub open spec fn drop_ws(s: Seq<char>) -> Seq<char>
    decreases s.len(),
{
    if s.len() == 0 {
        s
    } else if is_ws(s.last()) {
        drop_ws(s.drop_last())
    } else {
        drop_ws(s.drop_last()).push(s.last())
    }
}

/// A run of characters that are neither whitespace nor splitting punctuation.
pub open spec fn plain_run(w: Seq<char>) -> bool {
    forall|i: int| 0 <= i < w.len() ==> !is_ws(#[trigger] w[i]) && !is_split_punct(w[i])
}

/// A word as `split_words` gives it: a splitting punctuation mark alone, or a
/// non-empty plain run.
pub open spec fn word_shape(w: Seq<char>) -> bool {
    ||| (w.len() == 1 && is_split_punct(w[0]) && !is_ws(w[0]))
    ||| (w.len() > 0 && plain_run(w))
}

proof fn lemma_joined_push(ws: Seq<Seq<char>>, w: Seq<char>)
    ensures
        joined(ws.push(w)) == joined(ws) + w,
{
    assert(ws.push(w).drop_last() =~= ws);
}

proof fn lemma_words_state(s: Seq<char>)
    ensures
        joined(words_state(s).0) + words_state(s).1 == drop_ws(s),
        forall|i: int| 0 <= i < words_state(s).0.len() ==> word_shape(#[trigger] words_state(s).0[i]),
        plain_run(words_state(s).1),
    decreases s.len(),
{
    if s.len() > 0 {
        let p = s.drop_last();
        lemma_words_state(p);
        let (ws, cur) = words_state(p);
        let c = s.last();
        if is_ws(c) {
            if cur.len() > 0 {
                lemma_joined_push(ws, cur);
                assert(word_shape(cur));
                assert forall|i: int| 0 <= i < ws.push(cur).len() implies word_shape(#[trigger] ws.push(cur)[i]) by {
                    if i < ws.len() {
                        assert(ws.push(cur)[i] == ws[i]);
                    }
                }
            }
            assert(joined(words_state(s).0) + words_state(s).1 =~= joined(words_state(s).0));
            assert(plain_run(Seq::<char>::empty()));
        } else if is_split_punct(c) {
            let ws2 = if cur.len() > 0 {
                ws.push(cur)
            } else {
                ws
            };
            if cur.len() > 0 {
                lemma_joined_push(ws, cur);
                assert(word_shape(cur));
            } else {
                assert(joined(ws) + cur =~= joined(ws));
            }
            assert(joined(ws2) == joined(ws) + cur);
            lemma_joined_push(ws2, seq![c]);
            assert(word_shape(seq![c]));
            assert forall|i: int| 0 <= i < ws2.push(seq![c]).len() implies word_shape(
                #[trigger] ws2.push(seq![c])[i],
            ) by {
                if i < ws.len() {
                    assert(ws2.push(seq![c])[i] == ws[i]);
                }
            }
            assert(joined(words_state(s).0) + words_state(s).1 =~= drop_ws(s));
            assert(plain_run(Seq::<char>::empty()));
        } else {
            assert(joined(ws) + cur.push(c) =~= (joined(ws) + cur).push(c));
            assert(plain_run(cur.push(c))) by {
                assert forall|i: int| 0 <= i < cur.push(c).len() implies !is_ws(#[trigger] cur.push(c)[i])
                    && !is_split_punct(cur.push(c)[i]) by {
                    if i < cur.len() {
                        assert(cur.push(c)[i] == cur[i]);
                    }
                }
            }
        }
    }
}

/// The words of a text run together give back the text without its
/// whitespace; every word is non-empty and holds no whitespace; a splitting
/// punctuation mark stands alone as a word, and no other word holds one.
pub proof fn law_split_words(s: Seq<char>)
    ensures
        joined(split_words(s)) == drop_ws(s),
        forall|i: int| 0 <= i < split_words(s).len() ==> word_shape(#[trigger] split_words(s)[i]),
{
    lemma_words_state(s);
    let (ws, cur) = words_state(s);
    if cur.len() > 0 {
        lemma_joined_push(ws, cur);
        assert forall|i: int| 0 <= i < ws.push(cur).len() implies word_shape(#[trigger] ws.push(cur)[i]) by {
            if i < ws.len() {
                assert(ws.push(cur)[i] == ws[i]);
            }
        }
    } else {
        assert(joined(ws) + cur =~= joined(ws));
    }
}

/// The vocabulary entry tried for `cs[start..end]`: pieces after the first
/// carry a `##` prefix.
pub open spec fn piece(cs: Seq<char>, start: int, end: int) -> Seq<char> {
    if start == 0 {
        cs.subrange(0, end)
    } else {
        seq!['#', '#'] + cs.subrange(start, end)
    }
}

/// The largest `e` with `start < e <= end` whose piece is in the vocabulary.
pub open spec fn match_down(vocab: Map<Seq<char>, i64>, cs: Seq<char>, start: int, end: int) -> Option<int>
    decreases end - start,
{
    if end <= start {
        None
    } else if vocab.contains_key(piece(cs, start, end)) {
        Some(end)
    } else {
        match_down(vocab, cs, start, end - 1)
    }
}

/// Greedy longest-match-first WordPiece from `start`; a position where no
/// piece matches ends the word with `[UNK]`.
pub open spec fn wordpiece_from(vocab: Map<Seq<char>, i64>, cs: Seq<char>, start: int) -> Seq<Seq<char>>
    decreases cs.len() - start,
{
    if start < 0 || start >= cs.len() {
        Seq::empty()
    } else {
        match match_down(vocab, cs, start, cs.len() as int) {
            Some(e) => if start < e <= cs.len() {
                seq![piece(cs, start, e)] + wordpiece_from(vocab, cs, e)
            } else {
                Seq::empty()
            },
            None => seq!["[UNK]"@],
        }
    }
}

/// The tokens of one word: the word itself when it is in the vocabulary,
/// its WordPiece split otherwise.
pub open spec fn word_tokens(vocab: Map<Seq<char>, i64>, w: Seq<char>) -> Seq<Seq<char>> {
    if w.len() == 0 {
        Seq::empty()
    } else if vocab.contains_key(w) {
        seq![w]
    } else {
        wordpiece_from(vocab, w, 0)
    }
}

pub open spec fn words_tokens(vocab: Map<Seq<char>, i64>, ws: Seq<Seq<char>>) -> Seq<Seq<char>>
    decreases ws.len(),
{
    if ws.len() == 0 {
        Seq::empty()
    } else {
        words_tokens(vocab, ws.drop_last()) + word_tokens(vocab, ws.last())
    }
}

/// The tokens of a text.
pub open spec fn tokenize(vocab: Map<Seq<char>, i64>, text: Seq<char>) -> Seq<Seq<char>> {
    words_tokens(vocab, split_words(trim(text)))
}

/// The token whose id is `id`.
pub open spec fn token_of(vocab: Map<Seq<char>, i64>, id: i64) -> Option<Seq<char>> {
    if exists|t: Seq<char>| vocab.contains_key(t) && vocab[t] == id {
        Some(choose|t: Seq<char>| vocab.contains_key(t) && vocab[t] == id)
    } else {
        None
    }
}

/// The words that `decode` joins: each known id gives its token, and a `##`
/// token is glued to the word before it (or dropped when there is none).
pub open spec fn decode_words(vocab: Map<Seq<char>, i64>, ids: Seq<i64>) -> Seq<Seq<char>>
    decreases ids.len(),
{
    if ids.len() == 0 {
        Seq::empty()
    } else {
        let prev = decode_words(vocab, ids.drop_last());
        match token_of(vocab, ids.last()) {
            None => prev,
            Some(t) => if seq!['#', '#'].is_prefix_of(t) {
                if prev.len() > 0 {
                    prev.update(prev.len() - 1, prev.last() + t.skip(2))
                } else {
                    prev
                }
            } else {
                prev.push(t)
            },
        }
    }
}

/// `parts` joined with single spaces.
pub open spec fn join_spaced(parts: Seq<Seq<char>>) -> Seq<char>
    decreases parts.len(),
{
    if parts.len() == 0 {
        Seq::empty()
    } else if parts.len() == 1 {
        parts[0]
    } else {
        join_spaced(parts.drop_last()) + seq![' '] + parts.last()
    }
}

/// `s` with every ` ##` removed, scanning left to right.
pub open spec fn drop_glue(s: Seq<char>) -> Seq<char>
    decreases s.len(),
{
    if s.len() == 0 {
        s
    } else if seq![' ', '#', '#'].is_prefix_of(s) {
        drop_glue(s.skip(3))
    } else {
        seq![s[0]] + drop_glue(s.drop_first())
    }
}

/// The text that `decode` gives for `ids`.
pub open spec fn decoded(vocab: Map<Seq<char>, i64>, ids: Seq<i64>) -> Seq<char> {
    drop_glue(join_spaced(decode_words(vocab, ids)))
}


/// What a tokenizer holds, mathematically.
pub struct TokenizerView {
    pub vocab: Map<Seq<char>, i64>,
    pub unk_token_id: i64,
    pub pad_token_id: i64,
    pub cls_token_id: i64,
    pub sep_token_id: i64,
    pub max_len: nat,
}

/// A WordPiece tokenizer: vocabulary, special token ids and maximum sequence length.
pub struct Tokenizer {
    vocab: StringHashMap<i64>,
    lines: Vec<String>,
    unk_token_id: i64,
    pad_token_id: i64,
    cls_token_id: i64,
    sep_token_id: i64,
    max_len: usize,
}

impl Tokenizer {
    pub closed spec fn view(&self) -> TokenizerView {
        TokenizerView {
            vocab: self.vocab@,
            unk_token_id: self.unk_token_id,
            pad_token_id: self.pad_token_id,
            cls_token_id: self.cls_token_id,
            sep_token_id: self.sep_token_id,
            max_len: self.max_len as nat,
        }
    }

    /// Every token's id is the line that holds it.
    #[verifier::type_invariant]
    closed spec fn wf(&self) -> bool {
        forall|t: Seq<char>|
            #![trigger self.vocab@[t]]
            self.vocab@.contains_key(t) ==> 0 <= self.vocab@[t] < self.lines@.len()
                && self.lines@[self.vocab@[t] as int]@ == t
    }
}

proof fn lemma_match_down_range(vocab: Map<Seq<char>, i64>, cs: Seq<char>, start: int, end: int)
    ensures
        match_down(vocab, cs, start, end) matches Some(e) ==> start < e <= end,
    decreases end - start,
{
    if end > start && !vocab.contains_key(piece(cs, start, end)) {
        lemma_match_down_range(vocab, cs, start, end - 1);
    }
}

/// An ASCII letter.
pub open spec fn ascii_letter(c: char) -> bool {
    0x41 <= (c as u32) <= 0x5A || 0x61 <= (c as u32) <= 0x7A
}

proof fn lemma_letters_state(w: Seq<char>)
    requires
        forall|i: int| 0 <= i < w.len() ==> ascii_letter(#[trigger] w[i]),
    ensures
        words_state(w) == (Seq::<Seq<char>>::empty(), w),
    decreases w.len(),
{
    if w.len() > 0 {
        let p = w.drop_last();
        assert forall|i: int| 0 <= i < p.len() implies ascii_letter(#[trigger] p[i]) by {
            assert(p[i] == w[i]);
        }
        lemma_letters_state(p);
        assert(ascii_letter(w[w.len() - 1]));
        assert(p.push(w.last()) =~= w);
    }
}

/// Every ASCII punctuation mark other than `-` and `#` (the characters
/// 0x21-0x2F, 0x3A-0x40, 0x5B-0x60 and 0x7B-0x7E) is a word of its own: after
/// a run of letters it is split off. `-` and `#` are not: they stay in the
/// run. A run of letters alone is one word.
pub proof fn law_punctuation_splits(w: Seq<char>, c: char)
    requires
        w.len() > 0,
        forall|i: int| 0 <= i < w.len() ==> ascii_letter(#[trigger] w[i]),
    ensures
        split_words(w) == seq![w],
        ((0x21 <= (c as u32) <= 0x2F || 0x3A <= (c as u32) <= 0x40 || 0x5B <= (c as u32) <= 0x60
            || 0x7B <= (c as u32) <= 0x7E) && c != '-' && c != '#') ==> split_words(w.push(c))
            == seq![w, seq![c]],
        (c == '-' || c == '#') ==> split_words(w.push(c)) == seq![w.push(c)],
{
    lemma_letters_state(w);
    let s = w.push(c);
    assert(s.drop_last() =~= w);
    assert(s.last() == c);
    assert(seq![w] =~= Seq::<Seq<char>>::empty().push(w));
    if (0x21 <= (c as u32) <= 0x2F || 0x3A <= (c as u32) <= 0x40 || 0x5B <= (c as u32) <= 0x60
        || 0x7B <= (c as u32) <= 0x7E) && c != '-' && c != '#' {
        assert(!is_ws(c));
        assert(is_split_punct(c));
        assert(words_state(s) == (Seq::<Seq<char>>::empty().push(w).push(seq![c]), Seq::<char>::empty()));
        assert(seq![w, seq![c]] =~= Seq::<Seq<char>>::empty().push(w).push(seq![c]));
    }
    if c == '-' || c == '#' {
        assert(!is_ws(c));
        assert(!is_split_punct(c));
        assert(words_state(s) == (Seq::<Seq<char>>::empty(), w.push(c)));
        assert(seq![w.push(c)] =~= Seq::<Seq<char>>::empty().push(w.push(c)));
    }
}

/// A character that ends a plain run: whitespace or a splitting punctuation
/// mark.
pub open spec fn breaks_word(c: char) -> bool {
    is_ws(c) || is_split_punct(c)
}

/// Position `a` of `s` is where a run may start: the start of `s`, or just
/// after a character that ends runs.
pub open spec fn run_starts_at(s: Seq<char>, a: int) -> bool {
    a == 0 || breaks_word(s[a - 1])
}

/// Position `b` of `s` is where a run may end: the end of `s`, or a character
/// that ends runs.
pub open spec fn run_ends_at(s: Seq<char>, b: int) -> bool {
    b == s.len() || breaks_word(s[b])
}

/// The words `ws` stand in `s` at the spans `sp`, left to right and apart;
/// each plain word is a maximal run (nothing that could extend it stands on
/// either side); and every character of `s` that is not whitespace lies in a
/// span.
pub open spec fn words_at(s: Seq<char>, ws: Seq<Seq<char>>, sp: Seq<(int, int)>) -> bool {
    &&& sp.len() == ws.len()
    &&& forall|i: int|
        0 <= i < sp.len() ==> 0 <= (#[trigger] sp[i]).0 < sp[i].1 <= s.len() && ws[i] == s.subrange(
            sp[i].0,
            sp[i].1,
        )
    &&& forall|i: int, j: int| 0 <= i < j < sp.len() ==> (#[trigger] sp[i]).1 <= (#[trigger] sp[j]).0
    &&& forall|i: int|
        0 <= i < sp.len() && plain_run(ws[i]) ==> run_starts_at(s, (#[trigger] sp[i]).0) && run_ends_at(
            s,
            sp[i].1,
        )
    &&& forall|k: int|
        0 <= k < s.len() && !is_ws(#[trigger] s[k]) ==> exists|i: int|
            0 <= i < sp.len() && (#[trigger] sp[i]).0 <= k < sp[i].1
}

/// What holds of the state of `words_state` after `s`, with the spans `sp`
/// of the finished words.
spec fn state_at(s: Seq<char>, ws: Seq<Seq<char>>, cur: Seq<char>, sp: Seq<(int, int)>) -> bool {
    let n = s.len() as int;
    let m = n - cur.len();
    &&& 0 <= m
    &&& cur == s.subrange(m, n)
    &&& plain_run(cur)
    &&& run_starts_at(s, m)
    &&& sp.len() == ws.len()
    &&& forall|i: int|
        0 <= i < sp.len() ==> 0 <= (#[trigger] sp[i]).0 < sp[i].1 <= m && ws[i] == s.subrange(
            sp[i].0,
            sp[i].1,
        )
    &&& forall|i: int, j: int| 0 <= i < j < sp.len() ==> (#[trigger] sp[i]).1 <= (#[trigger] sp[j]).0
    &&& forall|i: int|
        0 <= i < sp.len() && plain_run(ws[i]) ==> run_starts_at(s, (#[trigger] sp[i]).0) && sp[i].1 < n
            && breaks_word(s[sp[i].1])
    &&& forall|k: int|
        0 <= k < m && !is_ws(#[trigger] s[k]) ==> exists|i: int|
            0 <= i < sp.len() && (#[trigger] sp[i]).0 <= k < sp[i].1
}

proof fn lemma_state_spans(s: Seq<char>) -> (sp: Seq<(int, int)>)
    ensures
        state_at(s, words_state(s).0, words_state(s).1, sp),
    decreases s.len(),
{
    if s.len() == 0 {
        let sp = Seq::<(int, int)>::empty();
        assert(s.subrange(0, 0) =~= words_state(s).1);
        sp
    } else {
        let p = s.drop_last();
        let sp0 = lemma_state_spans(p);
        let (ws, cur) = words_state(p);
        let c = s.last();
        let n = p.len() as int;
        let m = n - cur.len();
        assert forall|a: int, b: int| 0 <= a <= b <= n implies #[trigger] s.subrange(a, b) == p.subrange(a, b) by {
            assert(s.subrange(a, b) =~= p.subrange(a, b));
        }
        assert forall|k: int| 0 <= k < n implies #[trigger] s[k] == p[k] by {}
        assert(s[n] == c);
        if is_ws(c) || is_split_punct(c) {
            // close the current run, if any
            let sp1 = if cur.len() > 0 {
                sp0.push((m, n))
            } else {
                sp0
            };
            let ws1 = if cur.len() > 0 {
                ws.push(cur)
            } else {
                ws
            };
            assert(sp1.len() == ws1.len());
            assert forall|i: int| 0 <= i < sp1.len() implies 0 <= (#[trigger] sp1[i]).0 < sp1[i].1 <= n
                && ws1[i] == s.subrange(sp1[i].0, sp1[i].1) by {
                if i < sp0.len() {
                    assert(sp1[i] == sp0[i] && ws1[i] == ws[i]);
                }
            }
            assert forall|i: int, j: int| 0 <= i < j < sp1.len() implies (#[trigger] sp1[i]).1 <= (
            #[trigger] sp1[j]).0 by {
                assert(sp1[i] == sp0[i] || i == sp0.len());
                if j < sp0.len() {
                    assert(sp1[i] == sp0[i] && sp1[j] == sp0[j]);
                } else {
                    assert(sp1[i] == sp0[i]);
                }
            }
            assert forall|i: int| 0 <= i < sp1.len() && plain_run(ws1[i]) implies run_starts_at(
                s,
                (#[trigger] sp1[i]).0,
            ) && sp1[i].1 < n + 1 && breaks_word(s[sp1[i].1]) by {
                if i < sp0.len() {
                    assert(sp1[i] == sp0[i] && ws1[i] == ws[i]);
                } else {
                    assert(sp1[i] == (m, n));
                }
            }
            assert forall|k: int| 0 <= k < n && !is_ws(#[trigger] s[k]) implies exists|i: int|
                0 <= i < sp1.len() && (#[trigger] sp1[i]).0 <= k < sp1[i].1 by {
                assert(p[k] == s[k]);
                if k < m {
                    let i = choose|i: int| 0 <= i < sp0.len() && (#[trigger] sp0[i]).0 <= k < sp0[i].1;
                    assert(sp1[i] == sp0[i]);
                } else {
                    assert(sp1[sp0.len() as int] == (m, n));
                }
            }
            if is_ws(c) {
                assert(words_state(s) == (ws1, Seq::<char>::empty()));
                assert(s.subrange(n + 1, n + 1) =~= Seq::<char>::empty());
                assert(plain_run(Seq::<char>::empty()));
                assert(state_at(s, ws1, Seq::<char>::empty(), sp1));
                sp1
            } else {
                let sp2 = sp1.push((n, n + 1));
                let ws2 = ws1.push(seq![c]);
                assert(words_state(s) == (ws2, Seq::<char>::empty()));
                assert(s.subrange(n, n + 1) =~= seq![c]);
                assert(!plain_run(seq![c])) by {
                    assert(seq![c][0] == c);
                }
                assert forall|i: int| 0 <= i < sp2.len() implies 0 <= (#[trigger] sp2[i]).0 < sp2[i].1 <= n + 1
                    && ws2[i] == s.subrange(sp2[i].0, sp2[i].1) by {
                    if i < sp1.len() {
                        assert(sp2[i] == sp1[i] && ws2[i] == ws1[i]);
                    }
                }
                assert forall|i: int, j: int| 0 <= i < j < sp2.len() implies (#[trigger] sp2[i]).1 <= (
                #[trigger] sp2[j]).0 by {
                    assert(sp2[i] == sp1[i]);
                    if j < sp1.len() {
                        assert(sp2[j] == sp1[j]);
                    }
                }
                assert forall|i: int| 0 <= i < sp2.len() && plain_run(ws2[i]) implies run_starts_at(
                    s,
                    (#[trigger] sp2[i]).0,
                ) && sp2[i].1 < n + 1 && breaks_word(s[sp2[i].1]) by {
                    if i < sp1.len() {
                        assert(sp2[i] == sp1[i] && ws2[i] == ws1[i]);
                    }
                }
                assert forall|k: int| 0 <= k < n + 1 && !is_ws(#[trigger] s[k]) implies exists|i: int|
                    0 <= i < sp2.len() && (#[trigger] sp2[i]).0 <= k < sp2[i].1 by {
                    if k < n {
                        let i = choose|i: int| 0 <= i < sp1.len() && (#[trigger] sp1[i]).0 <= k < sp1[i].1;
                        assert(sp2[i] == sp1[i]);
                    } else {
                        assert(sp2[sp1.len() as int] == (n, n + 1));
                    }
                }
                assert(s.subrange(n + 1, n + 1) =~= Seq::<char>::empty());
                assert(plain_run(Seq::<char>::empty()));
                sp2
            }
        } else {
            assert(words_state(s) == (ws, cur.push(c)));
            assert(s.subrange(m, n + 1) =~= cur.push(c));
            assert(plain_run(cur.push(c))) by {
                assert forall|i: int| 0 <= i < cur.push(c).len() implies !is_ws(#[trigger] cur.push(c)[i])
                    && !is_split_punct(cur.push(c)[i]) by {
                    if i < cur.len() {
                        assert(cur.push(c)[i] == cur[i]);
                    }
                }
            }
            if m > 0 {
                assert(s[m - 1] == p[m - 1]);
            }
            assert forall|i: int| 0 <= i < sp0.len() && plain_run(ws[i]) implies run_starts_at(
                s,
                (#[trigger] sp0[i]).0,
            ) && sp0[i].1 < n + 1 && breaks_word(s[sp0[i].1]) by {
                let a = sp0[i].0;
                if a > 0 {
                    assert(s[a - 1] == p[a - 1]);
                }
                assert(s[sp0[i].1] == p[sp0[i].1]);
            }
            assert forall|k: int| 0 <= k < m && !is_ws(#[trigger] s[k]) implies exists|i: int|
                0 <= i < sp0.len() && (#[trigger] sp0[i]).0 <= k < sp0[i].1 by {
                assert(p[k] == s[k]);
            }
            sp0
        }
    }
}

/// Where the words of a text stand in it: each at its own span, left to
/// right; every non-blank character lies in some word; and each word that is
/// not a punctuation mark is a maximal run, bounded on both sides by the
/// text's ends, whitespace or splitting punctuation.
pub proof fn law_split_words_maximal(s: Seq<char>)
    ensures
        exists|sp: Seq<(int, int)>| words_at(s, split_words(s), sp),
{
    let sp0 = lemma_state_spans(s);
    let (ws, cur) = words_state(s);
    let n = s.len() as int;
    let m = n - cur.len();
    if cur.len() > 0 {
        let sp = sp0.push((m, n));
        let ws1 = ws.push(cur);
        assert forall|i: int| 0 <= i < sp.len() implies 0 <= (#[trigger] sp[i]).0 < sp[i].1 <= s.len()
            && ws1[i] == s.subrange(sp[i].0, sp[i].1) by {
            if i < sp0.len() {
                assert(sp[i] == sp0[i] && ws1[i] == ws[i]);
            }
        }
        assert forall|i: int, j: int| 0 <= i < j < sp.len() implies (#[trigger] sp[i]).1 <= (#[trigger] sp[j]).0 by {
            assert(sp[i] == sp0[i]);
            if j < sp0.len() {
                assert(sp[j] == sp0[j]);
            }
        }
        assert forall|i: int| 0 <= i < sp.len() && plain_run(ws1[i]) implies run_starts_at(
            s,
            (#[trigger] sp[i]).0,
        ) && run_ends_at(s, sp[i].1) by {
            if i < sp0.len() {
                assert(sp[i] == sp0[i] && ws1[i] == ws[i]);
            }
        }
        assert forall|k: int| 0 <= k < s.len() && !is_ws(#[trigger] s[k]) implies exists|i: int|
            0 <= i < sp.len() && (#[trigger] sp[i]).0 <= k < sp[i].1 by {
            if k < m {
                let i = choose|i: int| 0 <= i < sp0.len() && (#[trigger] sp0[i]).0 <= k < sp0[i].1;
                assert(sp[i] == sp0[i]);
            } else {
                assert(sp[sp0.len() as int] == (m, n));
            }
        }
        assert(words_at(s, split_words(s), sp));
    } else {
        assert forall|i: int| 0 <= i < sp0.len() && plain_run(ws[i]) implies run_starts_at(
            s,
            (#[trigger] sp0[i]).0,
        ) && run_ends_at(s, sp0[i].1) by {}
        assert(words_at(s, split_words(s), sp0));
    }
}

/// The piece `cs[s..e]` is in the vocabulary and no longer piece starting at
/// `s` is: the greedy match at `s`.
pub open spec fn longest_at(vocab: Map<Seq<char>, i64>, cs: Seq<char>, s: int, e: int) -> bool {
    &&& s < e <= cs.len()
    &&& vocab.contains_key(piece(cs, s, e))
    &&& forall|f: int| e < f <= cs.len() ==> !vocab.contains_key(#[trigger] piece(cs, s, f))
}

/// No piece starting at `s` is in the vocabulary.
pub open spec fn no_piece_at(vocab: Map<Seq<char>, i64>, cs: Seq<char>, s: int) -> bool {
    forall|f: int| s < f <= cs.len() ==> !vocab.contains_key(#[trigger] piece(cs, s, f))
}

/// The cut points `b` split `cs` greedily: each step is the longest match.
pub open spec fn greedy_cuts(vocab: Map<Seq<char>, i64>, cs: Seq<char>, b: Seq<int>) -> bool {
    forall|i: int| 0 <= i < b.len() - 1 ==> #[trigger] longest_at(vocab, cs, b[i], b[i + 1])
}

/// The pieces between consecutive cut points.
pub open spec fn pieces_between(cs: Seq<char>, b: Seq<int>) -> Seq<Seq<char>> {
    Seq::new((b.len() - 1) as nat, |i: int| piece(cs, b[i], b[i + 1]))
}

/// What ends a split that stopped at `p`: nothing at the end of the word,
/// `[UNK]` before it.
pub open spec fn unk_tail(cs: Seq<char>, p: int) -> Seq<Seq<char>> {
    if p == cs.len() {
        Seq::empty()
    } else {
        seq!["[UNK]"@]
    }
}

proof fn lemma_match_down(vocab: Map<Seq<char>, i64>, cs: Seq<char>, start: int, end: int)
    requires
        end <= cs.len(),
    ensures
        match_down(vocab, cs, start, end) matches Some(e) ==> start < e <= end && vocab.contains_key(
            piece(cs, start, e),
        ) && forall|f: int| e < f <= end ==> !vocab.contains_key(#[trigger] piece(cs, start, f)),
        match_down(vocab, cs, start, end) is None ==> forall|f: int|
            start < f <= end ==> !vocab.contains_key(#[trigger] piece(cs, start, f)),
    decreases end - start,
{
    if end > start && !vocab.contains_key(piece(cs, start, end)) {
        lemma_match_down(vocab, cs, start, end - 1);
    }
}

proof fn lemma_wordpiece_cuts(vocab: Map<Seq<char>, i64>, cs: Seq<char>, s: int) -> (b: Seq<int>)
    requires
        0 <= s <= cs.len(),
    ensures
        b.len() >= 1,
        b[0] == s,
        b.last() <= cs.len(),
        greedy_cuts(vocab, cs, b),
        b.last() == cs.len() || no_piece_at(vocab, cs, b.last()),
        wordpiece_from(vocab, cs, s) == pieces_between(cs, b) + unk_tail(cs, b.last()),
    decreases cs.len() - s,
{
    if s == cs.len() {
        let b = seq![s];
        assert(pieces_between(cs, b) =~= Seq::<Seq<char>>::empty());
        assert(wordpiece_from(vocab, cs, s) =~= pieces_between(cs, b) + unk_tail(cs, b.last()));
        b
    } else {
        lemma_match_down(vocab, cs, s, cs.len() as int);
        match match_down(vocab, cs, s, cs.len() as int) {
            Some(e) => {
                let rest = lemma_wordpiece_cuts(vocab, cs, e);
                let b = seq![s] + rest;
                assert(b.last() == rest.last());
                assert(longest_at(vocab, cs, b[0], b[1]));
                assert forall|i: int| 0 <= i < b.len() - 1 implies #[trigger] longest_at(
                    vocab,
                    cs,
                    b[i],
                    b[i + 1],
                ) by {
                    if i > 0 {
                        assert(b[i] == rest[i - 1] && b[i + 1] == rest[i]);
                        assert(longest_at(vocab, cs, rest[i - 1], rest[(i - 1) + 1]));
                    }
                }
                assert(pieces_between(cs, b) =~= seq![piece(cs, s, e)] + pieces_between(cs, rest));
                assert(wordpiece_from(vocab, cs, s) == seq![piece(cs, s, e)] + wordpiece_from(vocab, cs, e));
                assert(wordpiece_from(vocab, cs, s) =~= pieces_between(cs, b) + unk_tail(cs, b.last()));
                b
            },
            None => {
                let b = seq![s];
                assert(pieces_between(cs, b) =~= Seq::<Seq<char>>::empty());
                assert(wordpiece_from(vocab, cs, s) =~= pieces_between(cs, b) + unk_tail(cs, b.last()));
                b
            },
        }
    }
}

/// WordPiece is greedy longest-match-first: the pieces of a word cut it from
/// its start at points `b`, each piece the longest vocabulary entry at its
/// position (the first taken as is, later ones behind `##`). Where the cuts
/// reach the end of the word the pieces are the result; otherwise no entry
/// matches at the last cut, and the pieces found so far are kept and
/// followed by `[UNK]`.
pub proof fn law_wordpiece(vocab: Map<Seq<char>, i64>, w: Seq<char>)
    ensures
        exists|b: Seq<int>|
            {
                &&& b.len() >= 1
                &&& b[0] == 0
                &&& b.last() <= w.len()
                &&& greedy_cuts(vocab, w, b)
                &&& (b.last() == w.len() || no_piece_at(vocab, w, b.last()))
                &&& #[trigger] wordpiece_from(vocab, w, 0) == pieces_between(w, b) + unk_tail(w, b.last())
            },
{
    let b = lemma_wordpiece_cuts(vocab, w, 0);
    assert(wordpiece_from(vocab, w, 0) == pieces_between(w, b) + unk_tail(w, b.last()));
}

/// How one word is tokenized: kept whole when the vocabulary holds it, split
/// into word pieces otherwise.
pub open spec fn word_or_pieces(vocab: Map<Seq<char>, i64>) -> spec_fn(Seq<char>) -> Seq<Seq<char>> {
    |w: Seq<char>| if vocab.contains_key(w) {
        seq![w]
    } else {
        wordpiece_from(vocab, w, 0)
    }
}

proof fn lemma_words_tokens_flat(vocab: Map<Seq<char>, i64>, ws: Seq<Seq<char>>)
    requires
        forall|i: int| 0 <= i < ws.len() ==> (#[trigger] ws[i]).len() > 0,
    ensures
        words_tokens(vocab, ws) == ws.flat_map(word_or_pieces(vocab)),
    decreases ws.len(),
{
    if ws.len() == 0 {
        assert(ws.map_values(word_or_pieces(vocab)) =~= Seq::<Seq<Seq<char>>>::empty());
    } else {
        let p = ws.drop_last();
        assert forall|i: int| 0 <= i < p.len() implies (#[trigger] p[i]).len() > 0 by {
            assert(p[i] == ws[i]);
        }
        lemma_words_tokens_flat(vocab, p);
        p.lemma_flat_map_push(word_or_pieces(vocab), ws.last());
        assert(p.push(ws.last()) =~= ws);
        assert(ws.last() == ws[ws.len() - 1]);
    }
}

/// The tokens of a text are those of the words of the trimmed text, in
/// order: each word that the vocabulary holds is kept as it is, any other is
/// split into word pieces. Nothing else is done to the text: no case folding
/// and no other normalisation.
pub proof fn law_tokenize(vocab: Map<Seq<char>, i64>, text: Seq<char>)
    ensures
        tokenize(vocab, text) == split_words(trim(text)).flat_map(word_or_pieces(vocab)),
{
    let ws = split_words(trim(text));
    law_split_words(trim(text));
    assert forall|i: int| 0 <= i < ws.len() implies (#[trigger] ws[i]).len() > 0 by {
        assert(word_shape(ws[i]));
    }
    lemma_words_tokens_flat(vocab, ws);
}

/// The words of `s` (see `split_words`).
fn split_words_exec(s: &[char]) -> (r: Vec<Vec<char>>)
    ensures
        views(r@) == split_words(s@),
{
    let mut words: Vec<Vec<char>> = Vec::new();
    let mut cur: Vec<char> = Vec::new();
    let mut i: usize = 0;
    assert(s@.take(0) =~= Seq::<char>::empty());
    assert(views(words@) =~= Seq::<Seq<char>>::empty());
    while i < s.len()
        invariant
            i <= s@.len(),
            (views(words@), cur@) == words_state(s@.take(i as int)),
        decreases s.len() - i,
    {
        let c = s[i];
        let ghost t = s@.take(i + 1);
        assert(t.drop_last() =~= s@.take(i as int));
        assert(t.last() == c);
        let ghost before = words@;
        let u = c as u32;
        if is_whitespace(c) {
            if cur.len() > 0 {
                let mut done: Vec<char> = Vec::new();
                std::mem::swap(&mut done, &mut cur);
                words.push(done);
                assert(views(words@) =~= views(before).push(done@));
            }
        } else if ((0x21 <= u && u <= 0x2F) || (0x3A <= u && u <= 0x40) || (0x5B <= u && u <= 0x60)
            || (0x7B <= u && u <= 0x7E)) && c != '-' && c != '#' {
            if cur.len() > 0 {
                let mut done: Vec<char> = Vec::new();
                std::mem::swap(&mut done, &mut cur);
                words.push(done);
                assert(views(words@) =~= views(before).push(done@));
            }
            let ghost mid = words@;
            let mut one: Vec<char> = Vec::new();
            one.push(c);
            words.push(one);
            assert(views(words@) =~= views(mid).push(seq![c]));
        } else {
            cur.push(c);
        }
        i = i + 1;
    }
    assert(s@.take(s@.len() as int) =~= s@);
    if cur.len() > 0 {
        let ghost before = words@;
        let ghost cv = cur@;
        words.push(cur);
        assert(views(words@) =~= views(before).push(cv));
    }
    words
}

/// The piece `cs[start..end]`, `##`-prefixed unless it starts the word.
fn piece_string(cs: &[char], start: usize, end: usize) -> (r: String)
    requires
        start <= end <= cs@.len(),
    ensures
        r@ == piece(cs@, start as int, end as int),
{
    let mut v: Vec<char> = Vec::new();
    if start > 0 {
        v.push('#');
        v.push('#');
    }
    let mut i: usize = start;
    while i < end
        invariant
            start <= i <= end <= cs@.len(),
            v@ == (if start == 0 {
                Seq::<char>::empty()
            } else {
                seq!['#', '#']
            }) + cs@.subrange(start as int, i as int),
        decreases end - i,
    {
        v.push(cs[i]);
        assert(cs@.subrange(start as int, i + 1) =~= cs@.subrange(start as int, i as int).push(cs@[i as int]));
        i = i + 1;
    }
    assert(v@ =~= piece(cs@, start as int, end as int));
    string_of(v.as_slice())
}

fn append_chars(out: &mut Vec<char>, s: &[char])
    ensures
        final(out)@ == old(out)@ + s@,
{
    let mut i: usize = 0;
    while i < s.len()
        invariant
            i <= s@.len(),
            out@ == old(out)@ + s@.take(i as int),
        decreases s.len() - i,
    {
        out.push(s[i]);
        assert(s@.take(i + 1) =~= s@.take(i as int).push(s@[i as int]));
        i = i + 1;
    }
    assert(s@.take(s@.len() as int) =~= s@);
}

fn join_spaced_exec(parts: &Vec<Vec<char>>) -> (r: Vec<char>)
    ensures
        r@ == join_spaced(views(parts@)),
{
    let mut out: Vec<char> = Vec::new();
    let mut i: usize = 0;
    assert(views(parts@).take(0) =~= Seq::<Seq<char>>::empty());
    while i < parts.len()
        invariant
            i <= parts@.len(),
            out@ == join_spaced(views(parts@).take(i as int)),
        decreases parts.len() - i,
    {
        let ghost t = views(parts@).take(i + 1);
        assert(t.drop_last() =~= views(parts@).take(i as int));
        assert(t.last() == parts@[i as int]@);
        if i > 0 {
            out.push(' ');
        } else {
            assert(out@ =~= Seq::<char>::empty());
        }
        append_chars(&mut out, parts[i].as_slice());
        proof {
            if i == 0 {
                assert(t[0] == parts@[0]@);
                assert(out@ =~= parts@[0]@);
            }
        }
        i = i + 1;
    }
    assert(views(parts@).take(parts@.len() as int) =~= views(parts@));
    out
}

fn drop_glue_exec(s: &[char]) -> (r: Vec<char>)
    ensures
        r@ == drop_glue(s@),
{
    let n = s.len();
    let mut out: Vec<char> = Vec::new();
    let mut i: usize = 0;
    assert(s@.skip(0) =~= s@);
    while i < n
        invariant
            i <= n == s@.len(),
            drop_glue(s@) == out@ + drop_glue(s@.skip(i as int)),
        decreases n - i,
    {
        let ghost t = s@.skip(i as int);
        if n - i > 2 && s[i] == ' ' && s[i + 1] == '#' && s[i + 2] == '#' {
            assert(t.subrange(0, 3) =~= seq![' ', '#', '#']);
            assert(seq![' ', '#', '#'].is_prefix_of(t));
            assert(t.skip(3) =~= s@.skip(i + 3));
            i = i + 3;
        } else {
            assert(!seq![' ', '#', '#'].is_prefix_of(t)) by {
                if seq![' ', '#', '#'].is_prefix_of(t) {
                    assert(t.subrange(0, 3) =~= seq![' ', '#', '#']);
                    assert(t[0] == s@[i as int]);
                    assert(t[1] == s@[i + 1]);
                    assert(t[2] == s@[i + 2]);
                }
            }
            assert(t.drop_first() =~= s@.skip(i + 1));
            assert(t[0] == s@[i as int]);
            let ghost before = out@;
            out.push(s[i]);
            assert(out@ =~= before + seq![t[0]]);
            assert(before + (seq![t[0]] + drop_glue(t.drop_first())) =~= out@ + drop_glue(
                s@.skip(i + 1),
            ));
            i = i + 1;
        }
    }
    assert(s@.skip(n as int) =~= Seq::<char>::empty());
    assert(out@ + Seq::<char>::empty() =~= out@);
    out
}

impl Tokenizer {
    /// Builds a tokenizer from the text of `vocab.txt`, the four special
    /// tokens and the maximum sequence length.
    pub fn from_parts(
        vocab_text: &str,
        unk_token: &str,
        pad_token: &str,
        cls_token: &str,
        sep_token: &str,
        max_len: usize,
    ) -> (t: Tokenizer)
        requires
            vocab_text@.len() < i64::MAX,
        ensures
            t@.vocab == vocab_of(split_on(vocab_text@, '\n')),
            t@.unk_token_id == id_or(t@.vocab, unk_token@, 0),
            t@.pad_token_id == id_or(t@.vocab, pad_token@, 0),
            t@.cls_token_id == id_or(t@.vocab, cls_token@, 0),
            t@.sep_token_id == id_or(t@.vocab, sep_token@, 0),
            t@.max_len == max_len,
    {
        let chars = chars_of(vocab_text);
        let raw_lines = split_chars(chars.as_slice(), '\n');
        proof {
            lemma_split_on_len(chars@, '\n');
        }
        let mut vocab: StringHashMap<i64> = StringHashMap::new();
        let mut lines: Vec<String> = Vec::new();
        let mut i: usize = 0;
        assert(views(raw_lines@).take(0) =~= Seq::<Seq<char>>::empty());
        while i < raw_lines.len()
            invariant
                i <= raw_lines@.len() <= i64::MAX,
                lines@.len() == i,
                vocab@ == vocab_of(views(raw_lines@).take(i as int)),
                forall|t: Seq<char>|
                    #![trigger vocab@[t]]
                    vocab@.contains_key(t) ==> 0 <= vocab@[t] < lines@.len() && lines@[vocab@[t] as int]@ == t,
            decreases raw_lines.len() - i,
        {
            let ghost ls = views(raw_lines@).take(i + 1);
            assert(ls.drop_last() =~= views(raw_lines@).take(i as int));
            assert(ls.last() == raw_lines@[i as int]@);
            let token = trim_chars(raw_lines[i].as_slice());
            let ghost old_vocab = vocab@;
            let ghost old_lines = lines@;
            if token.len() > 0 {
                vocab.insert(string_of(token.as_slice()), i as i64);
                lines.push(string_of(token.as_slice()));
                assert forall|t: Seq<char>|
                    #![trigger vocab@[t]]
                    vocab@.contains_key(t) implies 0 <= vocab@[t] < lines@.len() && lines@[vocab@[t] as int]@ == t by {
                    if t != token@ {
                        assert(old_vocab.contains_key(t));
                        assert(lines@[vocab@[t] as int] == old_lines[vocab@[t] as int]);
                    }
                }
            } else {
                lines.push(std::string::String::new());
                assert forall|t: Seq<char>|
                    #![trigger vocab@[t]]
                    vocab@.contains_key(t) implies 0 <= vocab@[t] < lines@.len() && lines@[vocab@[t] as int]@ == t by {
                    assert(lines@[vocab@[t] as int] == old_lines[vocab@[t] as int]);
                }
            }
            i = i + 1;
        }
        assert(views(raw_lines@).take(raw_lines@.len() as int) =~= views(raw_lines@));
        let unk_token_id = match vocab.get(unk_token) {
            Some(v) => *v,
            None => 0,
        };
        let pad_token_id = match vocab.get(pad_token) {
            Some(v) => *v,
            None => 0,
        };
        let cls_token_id = match vocab.get(cls_token) {
            Some(v) => *v,
            None => 0,
        };
        let sep_token_id = match vocab.get(sep_token) {
            Some(v) => *v,
            None => 0,
        };
        Tokenizer { vocab, lines, unk_token_id, pad_token_id, cls_token_id, sep_token_id, max_len }
    }

    /// Builds a tokenizer from the text of `vocab.txt` and of `tokenizer.json`,
    /// whose `model` object may name `unk_token`, `pad_token`, `cls_token`,
    /// `sep_token` (defaults `[UNK]`, `[PAD]`, `[CLS]`, `[SEP]`) and
    /// `max_length` (default 512).
    pub fn load(vocab_text: &str, tokenizer_json: &str) -> (r: Result<Tokenizer, TokenizerError>)
        requires
            vocab_text@.len() < i64::MAX,
        ensures
            r is Err <==> !json_accepts(tokenizer_json@),
            r is Err ==> (r matches Err(TokenizerError::InvalidJson { message })
                && message@ == json_error_text(tokenizer_json@)),
            r matches Ok(t) ==> {
                &&& t@.vocab == vocab_of(split_on(vocab_text@, '\n'))
                &&& t@.unk_token_id == id_or(
                    t@.vocab,
                    str_or(json_nested_str(tokenizer_json@, "model"@, "unk_token"@), "[UNK]"@),
                    0,
                )
                &&& t@.pad_token_id == id_or(
                    t@.vocab,
                    str_or(json_nested_str(tokenizer_json@, "model"@, "pad_token"@), "[PAD]"@),
                    0,
                )
                &&& t@.cls_token_id == id_or(
                    t@.vocab,
                    str_or(json_nested_str(tokenizer_json@, "model"@, "cls_token"@), "[CLS]"@),
                    0,
                )
                &&& t@.sep_token_id == id_or(
                    t@.vocab,
                    str_or(json_nested_str(tokenizer_json@, "model"@, "sep_token"@), "[SEP]"@),
                    0,
                )
                &&& t@.max_len == (match json_nested_u64(tokenizer_json@, "model"@, "max_length"@) {
                    Some(n) => n as usize,
                    None => 512usize,
                }) as nat
            },
    {
        match json_parse(tokenizer_json) {
            Ok(_) => {},
            Err(message) => return Err(TokenizerError::InvalidJson { message }),
        }
        let unk_token = match json_str_at(tokenizer_json, "model", "unk_token") {
            Some(s) => s,
            None => "[UNK]".to_owned(),
        };
        let pad_token = match json_str_at(tokenizer_json, "model", "pad_token") {
            Some(s) => s,
            None => "[PAD]".to_owned(),
        };
        let cls_token = match json_str_at(tokenizer_json, "model", "cls_token") {
            Some(s) => s,
            None => "[CLS]".to_owned(),
        };
        let sep_token = match json_str_at(tokenizer_json, "model", "sep_token") {
            Some(s) => s,
            None => "[SEP]".to_owned(),
        };
        let max_len = match json_u64_at(tokenizer_json, "model", "max_length") {
            Some(n) => n as usize,
            None => 512,
        };
        Ok(
            Tokenizer::from_parts(
                vocab_text,
                unk_token.as_str(),
                pad_token.as_str(),
                cls_token.as_str(),
                sep_token.as_str(),
                max_len,
            ),
        )
    }

    /// The maximum sequence length, special tokens included.
    pub fn max_len(&self) -> (n: usize)
        ensures
            n == self@.max_len,
    {
        self.max_len
    }

    fn wordpiece(&self, cs: &[char]) -> (r: Vec<String>)
        ensures
            string_views(r@) == wordpiece_from(self@.vocab, cs@, 0),
    {
        let ghost vocab = self@.vocab;
        let n = cs.len();
        let mut tokens: Vec<String> = Vec::new();
        let mut start: usize = 0;
        assert(string_views(tokens@) =~= Seq::<Seq<char>>::empty());
        assert(wordpiece_from(vocab, cs@, 0) =~= string_views(tokens@) + wordpiece_from(vocab, cs@, 0));
        while start < n
            invariant
                start <= n == cs@.len(),
                vocab == self@.vocab,
                wordpiece_from(vocab, cs@, 0) == string_views(tokens@) + wordpiece_from(vocab, cs@, start as int),
            decreases n - start,
        {
            let mut end: usize = n;
            let mut hit: Option<String> = None;
            while end > start && hit.is_none()
                invariant
                    start < n == cs@.len(),
                    start <= end <= n,
                    vocab == self@.vocab,
                    hit is None ==> match_down(vocab, cs@, start as int, n as int) == match_down(vocab, cs@, start as int, end as int),
                    hit matches Some(p) ==> start < end && match_down(vocab, cs@, start as int, n as int) == Some(end as int) && p@ == piece(cs@, start as int, end as int),
                decreases end + (if hit is None { 1int } else { 0int }),
            {
                let p = piece_string(cs, start, end);
                if self.vocab.contains_key(p.as_str()) {
                    hit = Some(p);
                } else {
                    end = end - 1;
                }
            }
            let ghost before = tokens@;
            match hit {
                Some(p) => {
                    let ghost pv = p@;
                    tokens.push(p);
                    assert(string_views(tokens@) =~= string_views(before).push(pv));
                    assert(wordpiece_from(vocab, cs@, start as int) == seq![pv] + wordpiece_from(vocab, cs@, end as int));
                    assert(string_views(tokens@) + wordpiece_from(vocab, cs@, end as int) =~= string_views(before) + (seq![pv] + wordpiece_from(vocab, cs@, end as int)));
                    start = end;
                },
                None => {
                    assert(match_down(vocab, cs@, start as int, n as int) is None);
                    let unk = "[UNK]".to_owned();
                    let ghost uv = unk@;
                    tokens.push(unk);
                    assert(string_views(tokens@) =~= string_views(before).push(uv));
                    assert(wordpiece_from(vocab, cs@, start as int) == seq![uv]);
                    assert(wordpiece_from(vocab, cs@, n as int) =~= Seq::<Seq<char>>::empty());
                    assert(string_views(tokens@) + wordpiece_from(vocab, cs@, n as int) =~= string_views(before) + seq![uv]);
                    start = n;
                },
            }
        }
        assert(wordpiece_from(vocab, cs@, start as int) =~= Seq::<Seq<char>>::empty());
        assert(string_views(tokens@) + Seq::<Seq<char>>::empty() =~= string_views(tokens@));
        tokens
    }
}

/// The ids that `encode` gives for `text`: `[CLS]`, the ids of the first
/// `max_len - 2` tokens (unknown tokens as `[UNK]`), `[SEP]`.
pub open spec fn encoded_ids(t: TokenizerView, text: Seq<char>) -> Seq<i64> {
    let toks = tokenize(t.vocab, text);
    let n = if toks.len() < t.max_len - 2 {
        toks.len() as int
    } else {
        t.max_len - 2
    };
    seq![t.cls_token_id] + toks.take(n).map_values(|w: Seq<char>| id_or(t.vocab, w, t.unk_token_id))
        + seq![t.sep_token_id]
}

/// Every encoding fits the maximum length, opens with the `[CLS]` id and
/// closes with the `[SEP]` id; it is shorter than the maximum only when the
/// text has fewer tokens than fit.
pub proof fn law_encoding_shape(t: TokenizerView, text: Seq<char>)
    requires
        t.max_len >= 2,
    ensures
        2 <= encoded_ids(t, text).len() <= t.max_len,
        encoded_ids(t, text)[0] == t.cls_token_id,
        encoded_ids(t, text).last() == t.sep_token_id,
        encoded_ids(t, text).len() == (if tokenize(t.vocab, text).len() < t.max_len - 2 {
            tokenize(t.vocab, text).len() + 2int
        } else {
            t.max_len as int
        }),
{
}

/// Different tokens of the vocabulary have different ids.
pub open spec fn ids_distinct(vocab: Map<Seq<char>, i64>) -> bool {
    forall|a: Seq<char>, b: Seq<char>|
        #![trigger vocab[a], vocab[b]]
        vocab.contains_key(a) && vocab.contains_key(b) && vocab[a] == vocab[b] ==> a == b
}

/// A token that decodes as a word of its own: in the vocabulary, free of
/// spaces, and not a `##` continuation.
pub open spec fn plain_token(vocab: Map<Seq<char>, i64>, w: Seq<char>) -> bool {
    &&& vocab.contains_key(w)
    &&& !w.contains(' ')
    &&& !seq!['#', '#'].is_prefix_of(w)
}

/// The ids of tokens that are all in the vocabulary.
pub open spec fn ids_of(vocab: Map<Seq<char>, i64>, parts: Seq<Seq<char>>) -> Seq<i64> {
    parts.map_values(|p: Seq<char>| vocab[p])
}

/// No ` ##` occurs in `s`.
pub open spec fn glue_free(s: Seq<char>) -> bool {
    forall|i: int| 0 <= i && i + 2 < s.len() ==> !(#[trigger] s[i] == ' ' && s[i + 1] == '#' && s[i + 2] == '#')
}

proof fn lemma_words_tokens_known(vocab: Map<Seq<char>, i64>, ws: Seq<Seq<char>>)
    requires
        forall|i: int| 0 <= i < ws.len() ==> vocab.contains_key(#[trigger] ws[i]) && ws[i].len() > 0,
    ensures
        words_tokens(vocab, ws) == ws,
    decreases ws.len(),
{
    if ws.len() > 0 {
        lemma_words_tokens_known(vocab, ws.drop_last());
        assert(word_tokens(vocab, ws.last()) == seq![ws.last()]);
        assert(ws.drop_last() + seq![ws.last()] =~= ws);
    }
}

proof fn lemma_token_of_known(vocab: Map<Seq<char>, i64>, w: Seq<char>)
    requires
        ids_distinct(vocab),
        vocab.contains_key(w),
    ensures
        token_of(vocab, vocab[w]) == Some(w),
{
    let id = vocab[w];
    assert(vocab.contains_key(w) && vocab[w] == id);
    let t = choose|t: Seq<char>| vocab.contains_key(t) && vocab[t] == id;
    assert(vocab[t] == vocab[w]);
}

proof fn lemma_decode_known(vocab: Map<Seq<char>, i64>, parts: Seq<Seq<char>>)
    requires
        ids_distinct(vocab),
        forall|i: int| 0 <= i < parts.len() ==> plain_token(vocab, #[trigger] parts[i]),
    ensures
        decode_words(vocab, ids_of(vocab, parts)) == parts,
    decreases parts.len(),
{
    if parts.len() > 0 {
        let ids = ids_of(vocab, parts);
        assert(ids.drop_last() =~= ids_of(vocab, parts.drop_last()));
        lemma_decode_known(vocab, parts.drop_last());
        assert(plain_token(vocab, parts[parts.len() - 1]));
        lemma_token_of_known(vocab, parts.last());
        assert(ids.last() == vocab[parts.last()]);
        assert(parts.drop_last().push(parts.last()) =~= parts);
    }
}

proof fn lemma_drop_glue_free(s: Seq<char>)
    requires
        glue_free(s),
    ensures
        drop_glue(s) == s,
    decreases s.len(),
{
    if s.len() > 0 {
        if seq![' ', '#', '#'].is_prefix_of(s) {
            assert(s[0] == ' ' && s[1] == '#' && s[2] == '#');
        }
        let d = s.drop_first();
        assert forall|i: int| 0 <= i && i + 2 < d.len() implies !(#[trigger] d[i] == ' ' && d[i + 1] == '#'
            && d[i + 2] == '#') by {
            assert(d[i] == s[i + 1] && d[i + 1] == s[i + 2] && d[i + 2] == s[i + 3]);
        }
        lemma_drop_glue_free(d);
        assert(seq![s[0]] + d =~= s);
    }
}

proof fn lemma_join_glue_free(parts: Seq<Seq<char>>)
    requires
        forall|i: int| 0 <= i < parts.len() ==> !(#[trigger] parts[i]).contains(' ') && !seq!['#', '#'].is_prefix_of(parts[i]),
    ensures
        glue_free(join_spaced(parts)),
    decreases parts.len(),
{
    if parts.len() > 1 {
        let left = join_spaced(parts.drop_last());
        let last = parts.last();
        lemma_join_glue_free(parts.drop_last());
        let j = join_spaced(parts);
        assert(j == left + seq![' '] + last);
        let l = left.len() as int;
        assert(!last.contains(' ') && !seq!['#', '#'].is_prefix_of(last)) by {
            assert(parts[parts.len() - 1] == last);
        }
        assert forall|i: int| 0 <= i && i + 2 < j.len() implies !(#[trigger] j[i] == ' ' && j[i + 1] == '#'
            && j[i + 2] == '#') by {
            if i + 2 < l {
                assert(j[i] == left[i] && j[i + 1] == left[i + 1] && j[i + 2] == left[i + 2]);
            } else if i == l - 2 || i == l - 1 {
                assert(j[l] == ' ');
            } else if i == l {
                if j[i + 1] == '#' && j[i + 2] == '#' {
                    assert(last[0] == '#' && last[1] == '#');
                    assert(seq!['#', '#'].is_prefix_of(last));
                }
            } else {
                assert(j[i] == last[i - l - 1]);
                if j[i] == ' ' {
                    assert(last.contains(' '));
                }
            }
        }
    } else if parts.len() == 1 {
        assert(join_spaced(parts) == parts[0]);
        assert forall|i: int| 0 <= i && i + 2 < parts[0].len() implies !(#[trigger] parts[0][i] == ' '
            && parts[0][i + 1] == '#' && parts[0][i + 2] == '#') by {
            if parts[0][i] == ' ' {
                assert(parts[0].contains(' '));
            }
        }
    }
}

/// Decoding an encoding gives the text back as its words with single
/// spaces, between the `[CLS]` and `[SEP]` tokens, when every word of the
/// text is a vocabulary entry of its own (no `##` continuation), the words
/// fit the maximum length, ids are distinct, and the two special tokens are
/// plain vocabulary entries with those ids.
pub proof fn law_decode_encode(t: TokenizerView, text: Seq<char>, cls: Seq<char>, sep: Seq<char>)
    requires
        t.max_len >= 2,
        ids_distinct(t.vocab),
        forall|i: int|
            0 <= i < split_words(trim(text)).len() ==> t.vocab.contains_key(
                #[trigger] split_words(trim(text))[i],
            ) && !seq!['#', '#'].is_prefix_of(split_words(trim(text))[i]),
        split_words(trim(text)).len() <= t.max_len - 2,
        plain_token(t.vocab, cls),
        t.vocab[cls] == t.cls_token_id,
        plain_token(t.vocab, sep),
        t.vocab[sep] == t.sep_token_id,
    ensures
        decoded(t.vocab, encoded_ids(t, text)) == join_spaced(
            seq![cls] + split_words(trim(text)) + seq![sep],
        ),
{
    let ws = split_words(trim(text));
    law_split_words(trim(text));
    assert forall|i: int| 0 <= i < ws.len() implies t.vocab.contains_key(#[trigger] ws[i]) && ws[i].len()
        > 0 && !ws[i].contains(' ') by {
        assert(word_shape(ws[i]));
        if ws[i].contains(' ') {
            let k = choose|k: int| 0 <= k < ws[i].len() && ws[i][k] == ' ';
            assert(is_ws(ws[i][k]));
        }
    }
    lemma_words_tokens_known(t.vocab, ws);
    let parts = seq![cls] + ws + seq![sep];
    assert forall|i: int| 0 <= i < parts.len() implies plain_token(t.vocab, #[trigger] parts[i]) by {
        if 1 <= i < parts.len() - 1 {
            assert(parts[i] == ws[i - 1]);
        }
    }
    let toks = tokenize(t.vocab, text);
    assert(toks == ws);
    assert(toks.take(ws.len() as int) =~= ws);
    assert(encoded_ids(t, text) =~= ids_of(t.vocab, parts)) by {
        let m = ws.map_values(|w: Seq<char>| id_or(t.vocab, w, t.unk_token_id));
        assert forall|i: int| 0 <= i < ws.len() implies #[trigger] m[i] == t.vocab[ws[i]] by {}
    }
    lemma_decode_known(t.vocab, parts);
    lemma_join_glue_free(parts);
    lemma_drop_glue_free(join_spaced(parts));
}

pub open spec fn opt_string_view(o: Option<&String>) -> Option<Seq<char>> {
    match o {
        Some(s) => Some(s@),
        None => None,
    }
}

impl Tokenizer {
    fn tokenize(&self, text: &str) -> (r: Vec<String>)
        ensures
            string_views(r@) == tokenize(self@.vocab, text@),
    {
        let ghost vocab = self@.vocab;
        let chars = chars_of(text);
        let trimmed = trim_chars(chars.as_slice());
        let words = split_words_exec(trimmed.as_slice());
        let mut tokens: Vec<String> = Vec::new();
        let mut i: usize = 0;
        assert(views(words@).take(0) =~= Seq::<Seq<char>>::empty());
        assert(string_views(tokens@) =~= Seq::<Seq<char>>::empty());
        while i < words.len()
            invariant
                i <= words@.len(),
                vocab == self@.vocab,
                string_views(tokens@) == words_tokens(vocab, views(words@).take(i as int)),
            decreases words.len() - i,
        {
            let ghost ws = views(words@).take(i + 1);
            assert(ws.drop_last() =~= views(words@).take(i as int));
            assert(ws.last() == words@[i as int]@);
            let ghost before = tokens@;
            if words[i].len() > 0 {
                let w = string_of(words[i].as_slice());
                if self.vocab.contains_key(w.as_str()) {
                    let ghost wv = w@;
                    tokens.push(w);
                    assert(string_views(tokens@) =~= string_views(before) + seq![wv]);
                } else {
                    let mut pieces = self.wordpiece(words[i].as_slice());
                    let ghost pv = pieces@;
                    tokens.append(&mut pieces);
                    assert(string_views(tokens@) =~= string_views(before) + string_views(pv));
                }
            } else {
                assert(string_views(tokens@) =~= string_views(before) + Seq::<Seq<char>>::empty());
            }
            i = i + 1;
        }
        assert(views(words@).take(words@.len() as int) =~= views(words@));
        tokens
    }

    /// Encodes `text` as `(input_ids, attention_mask, token_type_ids)`: the ids
    /// are `[CLS]`, at most `max_len - 2` token ids and `[SEP]`; the mask is all
    /// ones and the type ids all zeros, of the same length.
    pub fn encode(&self, text: &str) -> (r: (Vec<i64>, Vec<i64>, Vec<i64>))
        requires
            self@.max_len >= 2,
        ensures
            r.0@ == encoded_ids(self@, text@),
            r.1@ == Seq::new(r.0@.len(), |i: int| 1i64),
            r.2@ == Seq::new(r.0@.len(), |i: int| 0i64),
    {
        let ghost v = self@;
        let tokens = self.tokenize(text);
        let cap = self.max_len - 2;
        let seq_len = if tokens.len() < cap {
            tokens.len()
        } else {
            cap
        };
        let mut input_ids: Vec<i64> = Vec::with_capacity(seq_len + 2);
        let mut attention_mask: Vec<i64> = Vec::with_capacity(seq_len + 2);
        input_ids.push(self.cls_token_id);
        attention_mask.push(1);
        let ghost toks = string_views(tokens@);
        let mut i: usize = 0;
        while i < seq_len
            invariant
                i <= seq_len <= tokens@.len(),
                v == self@,
                toks == string_views(tokens@),
                input_ids@ == seq![v.cls_token_id] + toks.take(i as int).map_values(
                    |w: Seq<char>| id_or(v.vocab, w, v.unk_token_id),
                ),
                attention_mask@ == Seq::new((i + 1) as nat, |k: int| 1i64),
            decreases seq_len - i,
        {
            let id = match self.vocab.get(tokens[i].as_str()) {
                Some(x) => *x,
                None => self.unk_token_id,
            };
            input_ids.push(id);
            attention_mask.push(1);
            assert(toks[i as int] == tokens@[i as int]@);
            assert(toks.take(i + 1).map_values(|w: Seq<char>| id_or(v.vocab, w, v.unk_token_id))
                =~= toks.take(i as int).map_values(|w: Seq<char>| id_or(v.vocab, w, v.unk_token_id)).push(id));
            assert(input_ids@ =~= seq![v.cls_token_id] + toks.take(i + 1).map_values(
                |w: Seq<char>| id_or(v.vocab, w, v.unk_token_id),
            ));
            assert(attention_mask@ =~= Seq::new((i + 2) as nat, |k: int| 1i64));
            i = i + 1;
        }
        input_ids.push(self.sep_token_id);
        attention_mask.push(1);
        let token_type_ids: Vec<i64> = vec![0i64; input_ids.len()];
        assert(input_ids@ =~= encoded_ids(v, text@));
        assert(attention_mask@ =~= Seq::new(input_ids@.len(), |k: int| 1i64));
        assert(token_type_ids@ =~= Seq::new(input_ids@.len(), |k: int| 0i64));
        (input_ids, attention_mask, token_type_ids)
    }

    fn token_for(&self, id: i64) -> (r: Option<&String>)
        ensures
            opt_string_view(r) == token_of(self@.vocab, id),
    {
        proof {
            use_type_invariant(self);
        }
        let ghost vocab = self@.vocab;
        if id >= 0 && (id as i128) < (self.lines.len() as i128) {
            let t = &self.lines[id as usize];
            match self.vocab.get(t.as_str()) {
                Some(x) => {
                    if *x == id {
                        assert(vocab.contains_key(t@) && vocab[t@] == id);
                        proof {
                            let c = choose|c: Seq<char>| vocab.contains_key(c) && vocab[c] == id;
                            assert(self.lines@[vocab[c] as int]@ == c);
                        }
                        return Some(t);
                    }
                },
                None => {},
            }
        }
        assert(!(exists|c: Seq<char>| vocab.contains_key(c) && vocab[c] == id)) by {
            if exists|c: Seq<char>| vocab.contains_key(c) && vocab[c] == id {
                let c = choose|c: Seq<char>| vocab.contains_key(c) && vocab[c] == id;
                assert(self.lines@[vocab[c] as int]@ == c);
            }
        }
        None
    }

    /// Turns ids back into text: known ids give their tokens, `##` tokens are
    /// glued to the word before them, words are joined by spaces and any
    /// remaining ` ##` is removed.
    pub fn decode(&self, ids: &[i64]) -> (r: String)
        ensures
            r@ == decoded(self@.vocab, ids@),
    {
        let ghost vocab = self@.vocab;
        let mut words: Vec<Vec<char>> = Vec::new();
        let mut i: usize = 0;
        assert(ids@.take(0) =~= Seq::<i64>::empty());
        assert(views(words@) =~= Seq::<Seq<char>>::empty());
        while i < ids.len()
            invariant
                i <= ids@.len(),
                vocab == self@.vocab,
                views(words@) == decode_words(vocab, ids@.take(i as int)),
            decreases ids.len() - i,
        {
            let ghost t = ids@.take(i + 1);
            assert(t.drop_last() =~= ids@.take(i as int));
            assert(t.last() == ids@[i as int]);
            let ghost before = words@;
            match self.token_for(ids[i]) {
                None => {},
                Some(tok) => {
                    let tc = chars_of(tok.as_str());
                    if tc.len() >= 2 && tc[0] == '#' && tc[1] == '#' {
                        assert(tc@.subrange(0, 2) =~= seq!['#', '#']);
                        if words.len() > 0 {
                            let mut last = words.pop().unwrap();
                            let ghost lv = last@;
                            let rest = copy_range(tc.as_slice(), 2, tc.len());
                            append_chars(&mut last, rest.as_slice());
                            assert(rest@ =~= tc@.skip(2));
                            let ghost nv = last@;
                            words.push(last);
                            assert(views(words@) =~= views(before).update(
                                views(before).len() - 1,
                                views(before).last() + tc@.skip(2),
                            ));
                        }
                    } else {
                        assert(!seq!['#', '#'].is_prefix_of(tc@)) by {
                            if seq!['#', '#'].is_prefix_of(tc@) {
                                assert(tc@.subrange(0, 2) =~= seq!['#', '#']);
                                assert(tc@[0] == '#');
                                assert(tc@[1] == '#');
                            }
                        }
                        let ghost tv = tc@;
                        words.push(tc);
                        assert(views(words@) =~= views(before).push(tv));
                    }
                },
            }
            i = i + 1;
        }
        assert(ids@.take(ids@.len() as int) =~= ids@);
        let joined = join_spaced_exec(&words);
        let glued = drop_glue_exec(joined.as_slice());
        string_of(glued.as_slice())
    }
}

} // verus!
