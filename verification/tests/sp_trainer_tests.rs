use tokenizers_rs::sentencepiece_bpe::trainer::normalized_char_total;
use tokenizers_rs::sentencepiece_bpe::{token_frequencies, tokenize_sentence, train_sp_bpe, TrainConfig};

/// The library's settings for a char coverage given as a fraction.
fn config(sentences: &[String], vocab_size: usize, coverage: f64, min_pair_count: u64) -> TrainConfig {
    let total = normalized_char_total(sentences).unwrap();
    TrainConfig { vocab_size, coverage_target: (total as f64 * coverage) as u64, min_pair_count }
}

#[test]
fn tokens_start_with_marker() {
    let sentences: Vec<String> = std::iter::repeat("abcde".to_string()).take(50).collect();
    let cfg = config(&sentences, 15, 1.0, 2);
    let model = train_sp_bpe(&sentences, &cfg);
    let tokens = tokenize_sentence("abcde", &model);
    assert!(!tokens.is_empty());
    assert!(tokens[0].starts_with('▁'), "primeiro token deve começar com ▁, got {:?}", tokens[0]);
}

#[test]
fn multiword_sentence_preserves_boundaries() {
    let sentences: Vec<String> =
        vec!["ab cd".into(), "ab cd".into(), "ab cd".into(), "ef gh".into(), "ef gh".into()];
    let cfg = config(&sentences, 20, 1.0, 2);
    let model = train_sp_bpe(&sentences, &cfg);
    let tokens = tokenize_sentence("ab cd", &model);
    let boundary_tokens: Vec<_> = tokens.iter().skip(1).filter(|t| t.starts_with('▁')).collect();
    assert!(
        !boundary_tokens.is_empty() || tokens.len() <= 2,
        "deve haver marcador de fronteira entre palavras: {:?}",
        tokens
    );
}

#[test]
fn sp_bpe_compresses_better_than_charwise() {
    let sentences: Vec<String> = std::iter::repeat("prefixo".to_string()).take(50).collect();
    let cfg = config(&sentences, 15, 1.0, 2);
    let model = train_sp_bpe(&sentences, &cfg);
    let tokens = tokenize_sentence("prefixo", &model);
    assert!(tokens.len() < 9, "SP-BPE deve comprimir abaixo do nível de char: {:?}", tokens);
}

#[test]
fn unk_has_id_zero_and_chars_follow_in_order() {
    let sentences = vec!["ab".to_string()];
    let cfg = config(&sentences, 4, 1.0, 2);
    let model = train_sp_bpe(&sentences, &cfg);
    // "▁ab": <unk>, then the chars in order of appearance; no pair occurs twice.
    assert_eq!(model.vocab, vec!["<unk>", "▁", "a", "b"]);
    assert!(model.merge_rules.is_empty());
    assert_eq!(model.vocab_set.get("a"), Some(&2));
}

#[test]
fn uncovered_chars_become_unk() {
    // 'x' is the rarest char: with a coverage target below the total it is left out.
    let sentences = vec!["aaa".to_string(), "aaa".to_string(), "x".to_string()];
    // normalized: "▁aaa", "▁aaa", "▁x": a×6, ▁×3, x×1 → covering 9 takes 'a' and '▁' only.
    let cfg = TrainConfig { vocab_size: 3, coverage_target: 9, min_pair_count: 2 };
    let model = train_sp_bpe(&sentences, &cfg);
    assert_eq!(model.vocab, vec!["<unk>", "▁", "a"]);
    assert_eq!(tokenize_sentence("x", &model), vec!["▁", "<unk>"]);
}

#[test]
fn sp_merges_most_frequent_pair_first() {
    let sentences: Vec<String> = std::iter::repeat("ab".to_string()).take(3).collect();
    let cfg = config(&sentences, 5, 1.0, 2);
    let model = train_sp_bpe(&sentences, &cfg);
    // pairs (▁, a) and (a, b) both occur 3 times; "a" sorts before "▁" (U+2581).
    assert_eq!(model.merge_rules, vec![("a".to_string(), "b".to_string())]);
    assert_eq!(model.vocab, vec!["<unk>", "▁", "a", "b", "ab"]);
    assert_eq!(tokenize_sentence("ab", &model), vec!["▁", "ab"]);
}

#[test]
fn sp_token_frequencies_skip_empty_sentences() {
    let sentences = vec!["ab".to_string(), "".to_string(), "ab".to_string()];
    let cfg = config(&sentences, 5, 1.0, 2);
    let model = train_sp_bpe(&sentences, &cfg);
    let freqs = token_frequencies(&sentences, &model);
    assert_eq!(freqs.get("▁"), Some(&2));
    assert_eq!(freqs.get("ab"), Some(&2));
    assert_eq!(freqs.len(), 2);
}

#[test]
fn normalized_char_total_counts_markers() {
    let sentences = vec!["a b".to_string(), "  ".to_string()];
    assert_eq!(normalized_char_total(&sentences), Some(4));
}

#[test]
fn trained_rules_and_tokens_are_vocabulary_tokens() {
    let sentences: Vec<String> =
        vec!["ab cd ab".into(), "abab cd".into(), "x".into(), "cdcd ab".into(), "".into()];
    let cfg = config(&sentences, 30, 0.9, 1);
    let model = train_sp_bpe(&sentences, &cfg);
    assert_eq!(model.vocab[0], "<unk>");
    assert_eq!(model.vocab_set.len(), model.vocab.len());
    for (i, t) in model.vocab.iter().enumerate() {
        assert_eq!(model.vocab_set.get(t), Some(&(i as u32)));
    }
    for (l, r) in &model.merge_rules {
        assert!(model.vocab_set.contains_key(l));
        assert!(model.vocab_set.contains_key(r));
        assert!(model.vocab_set.contains_key(&format!("{l}{r}")));
    }
    for s in ["ab cd", "zzz ab", "abcdx", ""] {
        for t in tokenize_sentence(s, &model) {
            assert!(model.vocab_set.contains_key(&t), "{t:?}");
        }
    }
}
