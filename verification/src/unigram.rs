//! Unigram language model: the integer parts of training (the initial
//! vocabulary's tokens, protected tokens, the pruning selection, Viterbi
//! path recovery and the schedule of EM and pruning steps).  The
//! probabilities themselves are floating point.

pub mod em;
pub mod lattice;
pub mod pretokenize;
pub mod trainer;

pub use em::{is_protected, keep_unmasked, keep_unmasked_tokens, prune_mask};
pub use pretokenize::{initial_vocab_tokens, normalize_sentence};
pub use trainer::{Step, TrainingSchedule};
