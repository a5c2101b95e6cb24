//! WordPiece: words start as `##`-prefixed chars, merges join a pair and
//! drop the right token's `##`, and inference is greedy longest match.

pub mod pair_stats;
pub mod trainer;
pub mod training;

pub use pair_stats::{pack_pair, unpack_pair, PairStats};
pub use trainer::{tokenize_word, wordpiece_pretokenize, MergeRule, WordPieceModel};
pub use training::{token_frequencies, PairCandidate, TrainConfig, WordPieceTrainer};
