use tokenizers_rs::sentencepiece_bpe::pair_stats::{pack_pair, unpack_pair, PairStats};
use tokenizers_rs::wordpiece::pair_stats as wp_pairs;

#[test]
fn pack_unpack_roundtrip() {
    let (a, b) = (0xABCD_1234u32, 0x5678_9ABCu32);
    assert_eq!(wp_pairs::unpack_pair(wp_pairs::pack_pair(a, b)), (a, b));
}

#[test]
fn pack_puts_left_in_high_half() {
    assert_eq!(pack_pair(1, 2), (1u64 << 32) | 2);
    assert_eq!(unpack_pair(0x0000_0003_0000_0004), (3, 4));
}

#[test]
fn pair_stats_count_windows() {
    let words = vec![vec![1u32, 2, 1, 2], vec![2, 1], vec![5]];
    let s = PairStats::from_words(&words);
    assert_eq!(s.pair_counts.get(&pack_pair(1, 2)), Some(&2));
    assert_eq!(s.pair_counts.get(&pack_pair(2, 1)), Some(&2));
    assert_eq!(s.pair_counts.len(), 2);
}

#[test]
fn pair_stats_across_many_chunks() {
    let words: Vec<Vec<u32>> = (0..5000u32).map(|i| vec![i % 3, 7]).collect();
    let s = PairStats::from_words(&words);
    assert_eq!(s.pair_counts.get(&pack_pair(0, 7)), Some(&1667));
    assert_eq!(s.pair_counts.get(&pack_pair(1, 7)), Some(&1667));
    assert_eq!(s.pair_counts.get(&pack_pair(2, 7)), Some(&1666));
}
