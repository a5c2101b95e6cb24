use tokenizers_rs::wordpiece::trainer::merge_wp_tokens;
use tokenizers_rs::wordpiece::{tokenize_word, wordpiece_pretokenize, WordPieceModel};
use rustc_hash::FxHashMap;

fn model_of(tokens: &[&str]) -> WordPieceModel {
    let mut vocab_set = FxHashMap::default();
    for (i, t) in tokens.iter().enumerate() {
        vocab_set.insert(t.to_string(), i as u32);
    }
    WordPieceModel {
        vocab: tokens.iter().map(|t| t.to_string()).collect(),
        vocab_set,
        merge_rules: Vec::new(),
    }
}

#[test]
fn pretokenize_splits_with_prefix() {
    let tokens = wordpiece_pretokenize("abc");
    assert_eq!(tokens, vec!["a", "##b", "##c"]);
}

#[test]
fn pretokenize_single_char() {
    assert_eq!(wordpiece_pretokenize("a"), vec!["a"]);
}

#[test]
fn pretokenize_empty_word() {
    assert!(wordpiece_pretokenize("").is_empty());
}

#[test]
fn merge_wp_removes_hash_prefix() {
    assert_eq!(merge_wp_tokens("p", "##l"), "pl");
    assert_eq!(merge_wp_tokens("##a", "##y"), "##ay");
    assert_eq!(merge_wp_tokens("pl", "##ay"), "play");
}

#[test]
fn merge_wp_keeps_unprefixed_right_token() {
    assert_eq!(merge_wp_tokens("a", "b"), "ab");
    assert_eq!(merge_wp_tokens("a", "#b"), "a#b");
}

#[test]
fn greedy_takes_longest_piece() {
    let m = model_of(&["a", "ab", "abc", "##d", "##de", "##e"]);
    assert_eq!(tokenize_word("abcde", &m), vec!["abc", "##de"]);
}

#[test]
fn greedy_backs_off_to_shorter_pieces() {
    let m = model_of(&["a", "##b", "##c"]);
    assert_eq!(tokenize_word("abc", &m), vec!["a", "##b", "##c"]);
}

#[test]
fn unknown_piece_gives_unk() {
    let m = model_of(&["a", "##b"]);
    assert_eq!(tokenize_word("abx", &m), vec!["[UNK]"]);
}

#[test]
fn empty_word_gives_no_tokens() {
    let m = model_of(&["a"]);
    assert!(tokenize_word("", &m).is_empty());
}
