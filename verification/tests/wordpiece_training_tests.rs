use tokenizers_rs::wordpiece::{token_frequencies, tokenize_word, PairCandidate, TrainConfig, WordPieceModel, WordPieceTrainer};

fn words(ws: &[&str]) -> Vec<String> {
    ws.iter().map(|w| w.to_string()).collect()
}

/// Settings with room for many merges.
fn roomy() -> TrainConfig {
    TrainConfig { vocab_size: 100, min_pair_count: 1 }
}

/// `freq(ab) / (freq(a) * freq(b))`.
fn score(c_ab: u64, c_a: u64, c_b: u64) -> f64 {
    if c_a == 0 || c_b == 0 {
        return 0.0;
    }
    (c_ab as f64) / ((c_a as f64) * (c_b as f64))
}

/// Drives the trainer the way training does: score every candidate, merge
/// the best, until the vocabulary size is reached or nothing is left.
fn train(corpus: &[String], cfg: &TrainConfig) -> WordPieceModel {
    let mut t = WordPieceTrainer::new(corpus, cfg);
    while t.below_target() {
        let cands = t.candidates(cfg.min_pair_count);
        let keys: Vec<u64> =
            cands.iter().map(|c| score(c.pair_count, c.left_count, c.right_count).to_bits()).collect();
        let Some(i) = t.best_candidate(&cands, &keys) else {
            break;
        };
        t.merge(cands[i].left, cands[i].right);
    }
    t.into_model()
}

/// Joins the pieces back: the first as it is, the others without `##`.
fn spell(tokens: &[String]) -> String {
    let mut out = String::new();
    for (i, t) in tokens.iter().enumerate() {
        if i == 0 {
            out.push_str(t);
        } else {
            out.push_str(t.strip_prefix("##").unwrap_or(t));
        }
    }
    out
}

#[test]
fn tokenize_known_word_no_unk() {
    let corpus: Vec<String> = std::iter::repeat("abc".to_string()).take(50).collect();
    let model = train(&corpus, &TrainConfig { vocab_size: 20, min_pair_count: 2 });
    let tokens = tokenize_word("abc", &model);
    assert!(!tokens.contains(&"[UNK]".to_string()));
}

#[test]
fn tokenize_unknown_word_returns_unk_or_chars() {
    let corpus = words(&["abc"]);
    let model = train(&corpus, &TrainConfig { vocab_size: 10, min_pair_count: 1 });
    let tokens = tokenize_word("xyz", &model);
    assert_eq!(tokens, vec!["[UNK]"]);
}

#[test]
fn small_vocab_causes_high_fragmentation() {
    let corpus = words(&["abcde", "abcde", "abcde", "bcdef", "bcdef", "bcdef"]);
    let model = train(&corpus, &TrainConfig { vocab_size: 8, min_pair_count: 2 });
    let tokens = tokenize_word("abcde", &model);
    assert!(tokens.len() >= 2);
}

#[test]
fn larger_vocab_means_fewer_tokens() {
    let corpus: Vec<String> = std::iter::repeat("abcdef".to_string()).take(100).collect();
    let small = train(&corpus, &TrainConfig { vocab_size: 8, min_pair_count: 2 });
    let large = train(&corpus, &TrainConfig { vocab_size: 20, min_pair_count: 2 });
    let tokens_small = tokenize_word("abcdef", &small).len();
    let tokens_large = tokenize_word("abcdef", &large).len();
    assert!(
        tokens_large <= tokens_small,
        "vocab maior ({}) deve produzir ≤ tokens que vocab menor ({}) — got {} vs {}",
        large.vocab.len(),
        small.vocab.len(),
        tokens_large,
        tokens_small
    );
}

#[test]
fn continuation_tokens_have_hash_prefix() {
    let corpus: Vec<String> = std::iter::repeat("abcde".to_string()).take(50).collect();
    let model = train(&corpus, &TrainConfig { vocab_size: 15, min_pair_count: 2 });
    let tokens = tokenize_word("abcde", &model);
    for tok in tokens.iter().skip(1) {
        assert!(tok.starts_with("##"));
    }
    assert!(tokens[0].chars().next().map(|c| c != '#').unwrap_or(false), "primeiro token não deve começar com #");
}

#[test]
fn wordpiece_default_config() {
    let cfg = TrainConfig::default();
    assert_eq!(cfg.vocab_size, 1000);
    assert_eq!(cfg.min_pair_count, 2);
}

#[test]
fn trainer_starts_from_first_chars_and_hashed_chars() {
    let t = WordPieceTrainer::new(&words(&["ab", "", "b"]), &roomy());
    // "a", "##b", then "b" from the last word; the empty word adds nothing.
    assert_eq!(t.vocab_len(), 3);
    let model = t.into_model();
    assert_eq!(model.vocab, vec!["a", "##b", "b"]);
    assert!(model.merge_rules.is_empty());
}

fn find(cands: &[PairCandidate], model_vocab: &[&str], l: &str, r: &str) -> Option<(u64, u64, u64)> {
    cands
        .iter()
        .find(|c| model_vocab[c.left as usize] == l && model_vocab[c.right as usize] == r)
        .map(|c| (c.pair_count, c.left_count, c.right_count))
}

#[test]
fn candidates_carry_exact_counts() {
    let t = WordPieceTrainer::new(&words(&["abab", "ab"]), &roomy());
    // tokens: a ##b ##a ##b | a ##b  → ids a=0, ##b=1, ##a=2
    let vocab = ["a", "##b", "##a"];
    let cands = t.candidates(1);
    assert_eq!(cands.len(), 3);
    assert_eq!(find(&cands, &vocab, "a", "##b"), Some((2, 2, 3)));
    assert_eq!(find(&cands, &vocab, "##b", "##a"), Some((1, 3, 1)));
    assert_eq!(find(&cands, &vocab, "##a", "##b"), Some((1, 1, 3)));
    let frequent = t.candidates(2);
    assert_eq!(frequent.len(), 1);
    assert_eq!(find(&frequent, &vocab, "a", "##b"), Some((2, 2, 3)));
}

#[test]
fn best_candidate_prefers_higher_key_then_smaller_tokens() {
    let t = WordPieceTrainer::new(&words(&["abab", "ab"]), &roomy());
    let cands = t.candidates(1);
    let vocab = ["a", "##b", "##a"];
    let idx = |l: &str, r: &str| {
        cands.iter().position(|c| vocab[c.left as usize] == l && vocab[c.right as usize] == r).unwrap()
    };
    // highest key wins
    let mut keys = vec![1u64; cands.len()];
    keys[idx("##b", "##a")] = 5;
    assert_eq!(t.best_candidate(&cands, &keys), Some(idx("##b", "##a")));
    // equal keys: the smaller left token, "##a" < "##b" < "a"
    let keys = vec![7u64; cands.len()];
    assert_eq!(t.best_candidate(&cands, &keys), Some(idx("##a", "##b")));
    assert_eq!(t.best_candidate(&Vec::new(), &Vec::new()), None);
}

#[test]
fn merge_drops_hashes_of_the_right_token() {
    let mut t = WordPieceTrainer::new(&words(&["abab"]), &roomy());
    t.merge(0, 1); // a + ##b
    t.merge(2, 1); // ##a + ##b
    let model = t.into_model();
    assert_eq!(model.vocab, vec!["a", "##b", "##a", "ab", "##ab"]);
    assert_eq!(
        model.merge_rules,
        vec![("a".to_string(), "##b".to_string()), ("##a".to_string(), "##b".to_string())]
    );
    assert_eq!(tokenize_word("abab", &model), vec!["ab", "##ab"]);
}

#[test]
fn trained_words_spell_themselves() {
    let corpus = words(&["banana", "bandana", "ana", "nab"]);
    let model = train(&corpus, &TrainConfig { vocab_size: 14, min_pair_count: 1 });
    for w in &corpus {
        let tokens = tokenize_word(w, &model);
        assert!(!tokens.contains(&"[UNK]".to_string()));
        assert_eq!(&spell(&tokens), w);
        for t in tokens.iter().skip(1) {
            assert!(t.starts_with("##"));
        }
    }
}

#[test]
fn wordpiece_token_frequencies_count_pieces() {
    let mut t = WordPieceTrainer::new(&words(&["ab", "ab", "b"]), &roomy());
    t.merge(0, 1); // "a" + "##b" → "ab"
    let model = t.into_model();
    let freqs = token_frequencies(&words(&["ab", "", "ab", "b", "zz"]), &model);
    assert_eq!(freqs.get("ab"), Some(&2));
    assert_eq!(freqs.get("b"), Some(&1));
    assert_eq!(freqs.get("[UNK]"), Some(&1));
    assert_eq!(freqs.len(), 3);
}

#[test]
fn below_target_compares_vocabulary_size() {
    let t = WordPieceTrainer::new(&words(&["ab"]), &TrainConfig { vocab_size: 3, min_pair_count: 1 });
    assert!(t.below_target());
    let t = WordPieceTrainer::new(&words(&["ab"]), &TrainConfig { vocab_size: 2, min_pair_count: 1 });
    assert!(!t.below_target());
}

#[test]
fn is_continuation_tells_hashed_tokens() {
    let t = WordPieceTrainer::new(&words(&["ab"]), &roomy());
    // "a" = 0, "##b" = 1
    assert!(!t.is_continuation(0));
    assert!(t.is_continuation(1));
}

#[test]
fn trained_rules_join_vocabulary_tokens() {
    let corpus = words(&["banana", "bandana", "ana", "nab"]);
    let cfg = TrainConfig { vocab_size: 14, min_pair_count: 1 };
    let model = train(&corpus, &cfg);
    assert!(!model.merge_rules.is_empty());
    assert!(model.vocab.len() <= cfg.vocab_size);
    for (l, r) in &model.merge_rules {
        assert!(r.starts_with("##"));
        assert!(model.vocab_set.contains_key(l));
        assert!(model.vocab_set.contains_key(r));
        let joined = format!("{l}{}", &r[2..]);
        assert!(model.vocab_set.contains_key(&joined));
    }
}
