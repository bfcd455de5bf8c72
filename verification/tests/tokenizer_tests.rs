use axon::tokenizer::{Tokenizer, TokenizerError};

const VOCAB: &str = "[PAD]\n[UNK]\n[CLS]\n[SEP]\nhello\nworld\n##s\nplay\n##ing\n,\n";

fn bert() -> Tokenizer {
    Tokenizer::from_parts(VOCAB, "[UNK]", "[PAD]", "[CLS]", "[SEP]", 512)
}

#[test]
fn encode_wraps_wordpieces_in_cls_and_sep() {
    let (ids, mask, types) = bert().encode("hello, worlds playing");
    assert_eq!(ids, vec![2, 4, 9, 5, 6, 7, 8, 3]);
    assert_eq!(mask, vec![1; 8]);
    assert_eq!(types, vec![0; 8]);
}

#[test]
fn unknown_words_become_unk() {
    let (ids, _, _) = bert().encode("hello xyz");
    assert_eq!(ids, vec![2, 4, 1, 3]);
}

#[test]
fn empty_text_gives_only_special_tokens() {
    let (ids, mask, types) = bert().encode("   ");
    assert_eq!(ids, vec![2, 3]);
    assert_eq!(mask, vec![1, 1]);
    assert_eq!(types, vec![0, 0]);
}

#[test]
fn encode_truncates_to_max_len() {
    let t = Tokenizer::from_parts(VOCAB, "[UNK]", "[PAD]", "[CLS]", "[SEP]", 4);
    assert_eq!(t.max_len(), 4);
    let (ids, _, _) = t.encode("hello world hello world");
    assert_eq!(ids, vec![2, 4, 5, 3]);
}

#[test]
fn decode_glues_subwords() {
    let s = bert().decode(&[2, 4, 9, 5, 6, 7, 8, 3]);
    assert_eq!(s, "[CLS] hello , worlds playing [SEP]");
}

#[test]
fn decode_skips_unknown_ids_and_leading_glue() {
    assert_eq!(bert().decode(&[6, 4, 99, 5]), "hello world");
    assert_eq!(bert().decode(&[]), "");
}

#[test]
fn decode_inverts_encode_on_known_words() {
    let t = bert();
    let (ids, _, _) = t.encode("hello worlds");
    assert_eq!(t.decode(&ids[1..ids.len() - 1]), "hello worlds");
}

#[test]
fn missing_special_tokens_default_to_zero() {
    let t = Tokenizer::from_parts("hello\n", "[UNK]", "[PAD]", "[CLS]", "[SEP]", 8);
    let (ids, _, _) = t.encode("hello bye");
    assert_eq!(ids, vec![0, 0, 0, 0]);
}

#[test]
fn load_reads_special_tokens_from_json() {
    let t = Tokenizer::load(VOCAB, r#"{"model": {"cls_token": "[SEP]", "sep_token": "[CLS]", "max_length": 3}}"#)
        .unwrap();
    assert_eq!(t.max_len(), 3);
    let (ids, _, _) = t.encode("hello world");
    assert_eq!(ids, vec![3, 4, 2]);
}

#[test]
fn load_uses_defaults_without_model_section() {
    let t = Tokenizer::load(VOCAB, "{}").unwrap();
    assert_eq!(t.max_len(), 512);
    let (ids, _, _) = t.encode("hello");
    assert_eq!(ids, vec![2, 4, 3]);
}

#[test]
fn load_rejects_invalid_json() {
    let expected = serde_json::from_str::<serde_json::Value>("not json").unwrap_err().to_string();
    match Tokenizer::load(VOCAB, "not json") {
        Err(TokenizerError::InvalidJson { message }) => assert_eq!(message, expected),
        Ok(_) => panic!("accepted text that is not JSON"),
    }
}

#[test]
fn load_reads_unk_token_from_json() {
    let vocab = "[PAD]\n[CLS]\n[SEP]\nhello\n";
    let t = Tokenizer::load(vocab, r#"{"model": {"unk_token": "hello", "max_length": "x"}}"#).unwrap();
    assert_eq!(t.max_len(), 512);
    let (ids, _, _) = t.encode("zzz");
    assert_eq!(ids, vec![1, 3, 2]);
    let d = Tokenizer::load(vocab, r#"{"model": {}}"#).unwrap();
    assert_eq!(d.encode("zzz").0, vec![1, 0, 2]);
}

#[test]
fn decode_of_encode_is_spaced_words_between_cls_and_sep() {
    let t = bert();
    let (ids, _, _) = t.encode("  hello,world   hello ");
    assert_eq!(t.decode(&ids), "[CLS] hello , world hello [SEP]");
}

#[test]
fn wordpiece_keeps_found_pieces_before_unk() {
    let t = Tokenizer::from_parts("[PAD]\n[UNK]\n[CLS]\n[SEP]\nun\n", "[UNK]", "[PAD]", "[CLS]", "[SEP]", 512);
    let (ids, _, _) = t.encode("unx");
    assert_eq!(ids, vec![2, 4, 1, 3]);
}

#[test]
fn wordpiece_takes_the_longest_match_first() {
    let t = Tokenizer::from_parts(
        "[PAD]\n[UNK]\n[CLS]\n[SEP]\np\npl\nplay\n##i\n##ing\n##in\n",
        "[UNK]",
        "[PAD]",
        "[CLS]",
        "[SEP]",
        512,
    );
    let (ids, _, _) = t.encode("playing");
    assert_eq!(ids, vec![2, 6, 8, 3]);
}

#[test]
fn words_are_looked_up_without_case_folding() {
    let (ids, _, _) = bert().encode("Hello hello");
    assert_eq!(ids, vec![2, 1, 4, 3]);
}

#[test]
fn plain_runs_end_only_at_whitespace_or_punctuation() {
    // "hello-world" stays one run ('-' does not split), so it is split into
    // pieces: "hello" then no piece at "-world" gives [UNK].
    let (ids, _, _) = bert().encode("hello-world");
    assert_eq!(ids, vec![2, 4, 1, 3]);
    // ',' splits without whitespace around it.
    let (ids, _, _) = bert().encode("hello,world");
    assert_eq!(ids, vec![2, 4, 9, 5, 3]);
}
