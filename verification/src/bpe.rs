//! Classic BPE: at each step the most frequent adjacent pair is merged.

pub mod trainer;

pub use crate::sentencepiece_bpe::pair_stats::{pack_pair, unpack_pair, PairStats};
pub use trainer::{apply_merges_to_word, token_frequencies, train_bpe, MergeRule, TrainConfig};
