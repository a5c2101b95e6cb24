use tokenizers_rs::sentencepiece_bpe::normalize_sentence;
use tokenizers_rs::unigram::pretokenize as unigram_pre;

#[test]
fn single_word_gets_prefix() {
    assert_eq!(normalize_sentence("hello"), "▁hello");
}

#[test]
fn spaces_become_separator() {
    assert_eq!(normalize_sentence("hello world"), "▁hello▁world");
}

#[test]
fn multiple_spaces_collapsed() {
    assert_eq!(normalize_sentence("hello  world"), "▁hello▁world");
}

#[test]
fn leading_trailing_spaces_ignored() {
    assert_eq!(normalize_sentence("  hello  "), "▁hello");
}

#[test]
fn empty_string() {
    assert_eq!(normalize_sentence(""), "");
}

#[test]
fn marker_separates_words_in_tokens() {
    let normalized = normalize_sentence("hello world foo");
    assert!(normalized.starts_with('▁'));
    let count = normalized.chars().filter(|&c| c == '▁').count();
    assert_eq!(count, 3);
}

#[test]
fn single_word_produces_one_marker() {
    let normalized = normalize_sentence("palavra");
    let count = normalized.chars().filter(|&c| c == '▁').count();
    assert_eq!(count, 1);
}

#[test]
fn normalize_adds_prefix() {
    assert_eq!(unigram_pre::normalize_sentence("ab"), "▁ab");
}

#[test]
fn normalize_spaces_to_marker() {
    assert_eq!(unigram_pre::normalize_sentence("a b"), "▁a▁b");
}

#[test]
fn tabs_are_blanks_too() {
    assert_eq!(normalize_sentence("\ta\t\tb "), "▁a▁b");
}

#[test]
fn only_blanks_normalize_to_nothing() {
    assert_eq!(normalize_sentence(" \t  "), "");
}

#[test]
fn markers_in_input_are_kept() {
    assert_eq!(normalize_sentence("a▁b"), "▁a▁b");
}
