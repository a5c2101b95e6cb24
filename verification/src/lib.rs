//! Verified subword tokenizer trainers: classic BPE, SentencePiece-BPE,
//! WordPiece and the integer parts of the Unigram language model.

mod fxmap;
mod vocab;
mod engine;
mod sorting;
pub mod frequency;
pub mod text;
pub mod merging;
pub mod pairs;
pub mod bpe;
pub mod sentencepiece_bpe;
pub mod wordpiece;
pub mod unigram;
pub mod cli;
pub mod input;
