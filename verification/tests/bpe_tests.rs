use tokenizers_rs::bpe::{apply_merges_to_word, token_frequencies, train_bpe, TrainConfig};

fn words(ws: &[&str]) -> Vec<String> {
    ws.iter().map(|w| w.to_string()).collect()
}

#[test]
fn bpe_merges_most_frequent_pair() {
    let corpus: Vec<String> = words(&["aab", "aab", "aab", "ac"]);
    let cfg = TrainConfig { num_merges: 1, min_pair_count: 2 };
    let rules = train_bpe(&corpus, &cfg);
    assert_eq!(rules.len(), 1);
    assert_eq!(rules[0], ("a".to_string(), "a".to_string()));
}

#[test]
fn apply_merges_to_word_basic() {
    let rules = vec![("a".to_string(), "b".to_string())];
    let tokens = apply_merges_to_word("abc", &rules);
    assert_eq!(tokens, vec!["ab", "c"]);
}

#[test]
fn more_merges_means_fewer_tokens() {
    let corpus: Vec<String> = std::iter::repeat("abcabc".to_string()).take(100).collect();
    let cfg_few = TrainConfig { num_merges: 1, min_pair_count: 2 };
    let cfg_more = TrainConfig { num_merges: 3, min_pair_count: 2 };
    let rules_few = train_bpe(&corpus, &cfg_few);
    let rules_more = train_bpe(&corpus, &cfg_more);
    let tokens_few = apply_merges_to_word("abcabc", &rules_few).len();
    let tokens_more = apply_merges_to_word("abcabc", &rules_more).len();
    assert!(tokens_more <= tokens_few, "mais merges deve produzir igual ou menos tokens");
}

#[test]
fn merge_is_deterministic() {
    let corpus: Vec<String> = words(&["ab", "ab", "cd", "cd"]);
    let cfg = TrainConfig { num_merges: 2, min_pair_count: 2 };
    let rules1 = train_bpe(&corpus, &cfg);
    let rules2 = train_bpe(&corpus, &cfg);
    assert_eq!(rules1, rules2);
}

#[test]
fn compression_ratio_bpe_vs_charwise() {
    let corpus: Vec<String> = std::iter::repeat("prefixo".to_string()).take(50).collect();
    let cfg = TrainConfig { num_merges: 4, min_pair_count: 2 };
    let rules = train_bpe(&corpus, &cfg);
    let tokens = apply_merges_to_word("prefixo", &rules).len();
    let chars = "prefixo".chars().count();
    assert!(tokens < chars, "BPE deve ter menos tokens que chars individuais");
}

#[test]
fn tie_goes_to_lexicographically_smaller_pair() {
    // "ab" and "cd" both occur twice: ("a", "b") comes first.
    let corpus = words(&["ab", "ab", "cd", "cd"]);
    let rules = train_bpe(&corpus, &TrainConfig { num_merges: 2, min_pair_count: 2 });
    assert_eq!(rules, vec![("a".to_string(), "b".to_string()), ("c".to_string(), "d".to_string())]);
}

#[test]
fn min_pair_count_stops_training() {
    let corpus = words(&["ab", "cd"]);
    let rules = train_bpe(&corpus, &TrainConfig { num_merges: 5, min_pair_count: 2 });
    assert!(rules.is_empty());
}

#[test]
fn merged_tokens_merge_again() {
    let corpus = words(&["abab", "abab", "abab"]);
    let rules = train_bpe(&corpus, &TrainConfig { num_merges: 2, min_pair_count: 2 });
    assert_eq!(rules, vec![("a".to_string(), "b".to_string()), ("ab".to_string(), "ab".to_string())]);
    assert_eq!(apply_merges_to_word("abab", &rules), vec!["abab"]);
}

#[test]
fn overlapping_pair_merges_left_to_right() {
    let rules = vec![("a".to_string(), "a".to_string())];
    assert_eq!(apply_merges_to_word("aaa", &rules), vec!["aa", "a"]);
}

#[test]
fn empty_words_are_skipped() {
    let corpus = words(&["", "aa", "aa", ""]);
    let rules = train_bpe(&corpus, &TrainConfig { num_merges: 3, min_pair_count: 2 });
    assert_eq!(rules, vec![("a".to_string(), "a".to_string())]);
    let freqs = token_frequencies(&corpus, &rules);
    assert_eq!(freqs.len(), 1);
    assert_eq!(freqs.get("aa"), Some(&2));
}

#[test]
fn token_frequencies_count_tokens() {
    let corpus = words(&["abc", "ab", "c"]);
    let rules = vec![("a".to_string(), "b".to_string())];
    let freqs = token_frequencies(&corpus, &rules);
    assert_eq!(freqs.get("ab"), Some(&2));
    assert_eq!(freqs.get("c"), Some(&2));
    assert_eq!(freqs.get("a"), None);
    assert_eq!(freqs.len(), 2);
}

#[test]
fn tokens_spell_the_word() {
    let corpus: Vec<String> = std::iter::repeat("tokenização".to_string()).take(20).collect();
    let rules = train_bpe(&corpus, &TrainConfig { num_merges: 6, min_pair_count: 2 });
    let toks = apply_merges_to_word("tokenização", &rules);
    assert_eq!(toks.concat(), "tokenização");
    assert!(toks.len() <= "tokenização".chars().count());
}

#[test]
fn default_config() {
    let c = TrainConfig::default();
    assert_eq!(c.num_merges, 25);
    assert_eq!(c.min_pair_count, 2);
}

#[test]
fn readme_example_compresses_baixo() {
    let corpus = words(&["baixo", "baixa", "baixos"]);
    let rules = train_bpe(&corpus, &TrainConfig { num_merges: 5, min_pair_count: 2 });
    let tokens = apply_merges_to_word("baixo", &rules);
    assert!(tokens.len() <= 2);
    assert_eq!(tokens.concat(), "baixo");
    assert_eq!(rules[0], ("a".to_string(), "i".to_string()));
}
