//! SentencePiece-BPE: sentences are normalized (blanks become `▁`) and BPE
//! merges run over the whole normalized sentence.

pub mod pair_stats;
pub mod pretokenize;
pub mod trainer;

pub use pretokenize::normalize_sentence;
pub use trainer::{token_frequencies, tokenize_sentence, train_sp_bpe, MergeRule, SentencePieceModel, TrainConfig};
