use tokenizers_rs::frequency::count_tokens;
use tokenizers_rs::unigram::lattice::back_path;
use tokenizers_rs::unigram::{
    initial_vocab_tokens, is_protected, keep_unmasked, keep_unmasked_tokens, prune_mask, Step, TrainingSchedule,
};

fn strings(ws: &[&str]) -> Vec<String> {
    ws.iter().map(|w| w.to_string()).collect()
}

#[test]
fn build_vocab_includes_single_chars() {
    let sentences = vec!["ab".to_string()];
    let vocab = initial_vocab_tokens(&sentences, 100);
    let tokens: Vec<&str> = vocab.iter().map(|s| s.as_str()).collect();
    assert!(tokens.contains(&"▁"));
    assert!(tokens.contains(&"a"));
    assert!(tokens.contains(&"b"));
}

#[test]
fn initial_vocab_chars_then_substrings_by_count() {
    let vocab = initial_vocab_tokens(&strings(&["ab"]), 100);
    // "▁ab": the three chars (in some order), then "ab", "▁a", "▁ab" (all once; by string)
    assert_eq!(vocab.len(), 6);
    let mut chars: Vec<&str> = vocab[..3].iter().map(|s| s.as_str()).collect();
    chars.sort();
    assert_eq!(chars, vec!["a", "b", "▁"]);
    assert_eq!(&vocab[3..], &["ab", "▁a", "▁ab"]);
}

#[test]
fn initial_vocab_takes_most_frequent_substrings_first() {
    let vocab = initial_vocab_tokens(&strings(&["abab"]), 6);
    // "▁abab": "ab" occurs twice, every other longer substring once.
    assert_eq!(vocab.len(), 6);
    assert_eq!(&vocab[3..], &["ab", "aba", "abab"]);
}

#[test]
fn initial_vocab_never_drops_chars() {
    let vocab = initial_vocab_tokens(&strings(&["xyz"]), 1);
    assert_eq!(vocab.len(), 4);
    assert!(vocab.iter().all(|t| t.chars().count() == 1));
}

#[test]
fn initial_vocab_substrings_stop_at_sixteen_chars() {
    let long = "abcdefghijklmnopqrstuvwxyz".to_string();
    let vocab = initial_vocab_tokens(&[long], 10_000);
    assert!(vocab.iter().all(|t| t.chars().count() <= 16));
    assert!(vocab.contains(&"▁abcdefghijklmno".to_string()));
    assert!(!vocab.contains(&"▁abcdefghijklmnop".to_string()));
}

#[test]
fn protected_tokens_are_single_chars_and_specials() {
    assert!(is_protected("a"));
    assert!(is_protected("▁"));
    assert!(is_protected("<unk>"));
    assert!(!is_protected("ab"));
    assert!(!is_protected(""));
}

#[test]
fn prune_mask_marks_smallest_unprotected() {
    let keys = vec![5u64, 1, 3, 1];
    let protected = vec![false, false, true, false];
    assert_eq!(prune_mask(&keys, &protected, 2), vec![false, true, false, true]);
    assert_eq!(prune_mask(&keys, &protected, 1), vec![false, true, false, false]);
    assert_eq!(prune_mask(&keys, &protected, 0), vec![false, false, false, false]);
    assert_eq!(prune_mask(&keys, &protected, 10), vec![true, true, false, true]);
}

#[test]
fn prune_mask_keeps_protected_tokens() {
    let tokens = strings(&["a", "ab", "b", "abc", "<unk>"]);
    let protected: Vec<bool> = tokens.iter().map(|t| is_protected(t)).collect();
    let keys = vec![0u64; tokens.len()];
    let mask = prune_mask(&keys, &protected, 5);
    let kept: Vec<&String> = tokens.iter().zip(mask.iter()).filter(|(_, m)| !**m).map(|(t, _)| t).collect();
    assert_eq!(kept, vec!["a", "b", "<unk>"]);
}

#[test]
fn back_path_reads_pieces_in_order() {
    let back = vec![None, Some(0), Some(0), Some(1), Some(2)];
    assert_eq!(back_path(&back, 4), vec![(0, 2), (2, 4)]);
    assert_eq!(back_path(&back, 3), vec![(0, 1), (1, 3)]);
    assert_eq!(back_path(&back, 0), vec![]);
}

#[test]
fn back_path_stops_at_a_missing_pointer() {
    let back = vec![None, None, Some(1), None];
    assert_eq!(back_path(&back, 2), vec![(1, 2)]);
    assert_eq!(back_path(&back, 3), vec![]);
}

#[test]
fn count_tokens_counts_every_occurrence() {
    let seqs = vec![strings(&["a", "b"]), strings(&["a"]), vec![]];
    let m = count_tokens(&seqs);
    assert_eq!(m.get("a"), Some(&2));
    assert_eq!(m.get("b"), Some(&1));
    assert_eq!(m.len(), 2);
}

fn run_schedule(target: usize, iters: usize, sizes: &[usize]) -> Vec<&'static str> {
    let mut s = TrainingSchedule::new(target, iters);
    let mut out = Vec::new();
    let mut k = 0;
    loop {
        let size = sizes[k.min(sizes.len() - 1)];
        match s.next(size) {
            Step::Em => out.push("em"),
            Step::Prune => {
                out.push("prune");
                k += 1;
            }
            Step::Done => break,
        }
    }
    out
}

#[test]
fn schedule_rounds_until_target_then_final_round() {
    // sizes after each pruning: 10 → 7 → 5 (target 5)
    assert_eq!(
        run_schedule(5, 2, &[10, 7, 5]),
        vec!["em", "em", "prune", "em", "em", "prune", "em", "em"]
    );
}

#[test]
fn schedule_small_vocab_only_final_round() {
    assert_eq!(run_schedule(5, 3, &[4]), vec!["em", "em", "em"]);
    assert_eq!(run_schedule(5, 0, &[4]), Vec::<&str>::new());
}

#[test]
fn schedule_without_em_prunes_directly() {
    assert_eq!(run_schedule(5, 0, &[9, 6, 3]), vec!["prune", "prune"]);
}

#[test]
fn schedule_keeps_pruning_while_above_target() {
    // a pruning round that removes nothing leaves the vocabulary above the
    // target, so rounds go on: the first steps alternate EM and pruning
    let mut s = TrainingSchedule::new(5, 1);
    let mut steps = Vec::new();
    for _ in 0..6 {
        steps.push(match s.next(9) {
            Step::Em => "em",
            Step::Prune => "prune",
            Step::Done => "done",
        });
    }
    assert_eq!(steps, vec!["em", "prune", "em", "prune", "em", "prune"]);
    assert_eq!(run_schedule(5, 1, &[9, 8, 4]), vec!["em", "prune", "em", "prune", "em"]);
}

#[test]
fn keep_unmasked_keeps_unmarked_entries_in_order() {
    let mask = vec![false, true, false, true];
    assert_eq!(keep_unmasked(&vec![1u32, 2, 3, 4], &mask), vec![1, 3]);
    assert_eq!(keep_unmasked(&vec![true, false, false, true], &mask), vec![true, false]);
    assert_eq!(keep_unmasked_tokens(&strings(&["a", "b", "c", "d"]), &mask), vec!["a", "c"]);
}
