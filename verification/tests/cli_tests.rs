use tokenizers_rs::cli::{arg_opt_usize, arg_str, arg_u64, arg_usize, parse_bounded};
use tokenizers_rs::input::{corpus_sentences, corpus_words, is_white_space};
use tokenizers_rs::text::char_total;

fn args(a: &[&str]) -> Vec<String> {
    a.iter().map(|s| s.to_string()).collect()
}

#[test]
fn arg_str_takes_the_value_after_the_first_key() {
    let a = args(&["prog", "--file", "x.txt", "--file", "y.txt"]);
    assert_eq!(arg_str(&a, "--file"), Some("x.txt".to_string()));
    assert_eq!(arg_str(&a, "--other"), None);
    assert_eq!(arg_str(&args(&["prog", "--file"]), "--file"), None);
}

#[test]
fn arg_numbers_fall_back_to_defaults() {
    let a = args(&["--merges", "40", "--runs", "+3", "--bad", "-1", "--empty", "", "--mix", "12a"]);
    assert_eq!(arg_usize(&a, "--merges", 25), 40);
    assert_eq!(arg_usize(&a, "--runs", 1), 3);
    assert_eq!(arg_usize(&a, "--bad", 7), 7);
    assert_eq!(arg_usize(&a, "--empty", 7), 7);
    assert_eq!(arg_usize(&a, "--mix", 7), 7);
    assert_eq!(arg_usize(&a, "--missing", 9), 9);
    assert_eq!(arg_u64(&a, "--merges", 2), 40);
    assert_eq!(arg_opt_usize(&a, "--merges"), Some(40));
    assert_eq!(arg_opt_usize(&a, "--bad"), None);
    assert_eq!(arg_opt_usize(&a, "--missing"), None);
}

#[test]
fn parse_bounded_follows_std_parse() {
    assert_eq!(parse_bounded("18446744073709551615", u64::MAX), Some(u64::MAX));
    assert_eq!(parse_bounded("18446744073709551616", u64::MAX), None);
    assert_eq!(parse_bounded("+", u64::MAX), None);
    assert_eq!(parse_bounded("007", u64::MAX), Some(7));
    assert_eq!(parse_bounded("256", 255), None);
    assert_eq!(parse_bounded("255", 255), Some(255));
    for s in ["0", "42", "+9", "1 ", " 1", "x", "", "99999999999999999999"] {
        assert_eq!(parse_bounded(s, u64::MAX), s.parse::<u64>().ok());
    }
}

#[test]
fn corpus_words_take_first_word_of_useful_lines() {
    let text = "  hello world\n# comment\n\n\tfoo\r\n  #indented comment\nbar baz  \n\u{3000}wide\u{3000}space";
    assert_eq!(corpus_words(text, None), vec!["hello", "foo", "bar", "wide"]);
    assert_eq!(corpus_words(text, Some(2)), vec!["hello", "foo"]);
    assert_eq!(corpus_words(text, Some(0)), Vec::<String>::new());
}

#[test]
fn corpus_sentences_keep_whole_trimmed_lines() {
    let text = "  hello world\n# comment\n\n\tfoo\r\nbar baz  \n";
    assert_eq!(corpus_sentences(text, None), vec!["hello world", "foo", "bar baz"]);
    assert_eq!(corpus_sentences(text, Some(10)), vec!["hello world", "foo", "bar baz"]);
    assert_eq!(corpus_sentences("", None), Vec::<String>::new());
}

#[test]
fn white_space_matches_std() {
    for c in ['\t', '\n', '\u{b}', '\u{c}', '\r', ' ', '\u{85}', '\u{a0}', '\u{1680}', '\u{2000}', '\u{200a}', '\u{2028}', '\u{2029}', '\u{202f}', '\u{205f}', '\u{3000}', 'a', '▁', '\u{200b}', '\u{180e}', '#'] {
        assert_eq!(is_white_space(c), c.is_whitespace(), "{:?}", c);
    }
}

#[test]
fn char_total_counts_chars_not_bytes() {
    assert_eq!(char_total(&args(&["ação", "", "ab"])), Some(6));
}
