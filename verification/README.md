# tokenizers_rs

Four subword tokenizer trainers — classic BPE, SentencePiece-BPE, WordPiece
and the Unigram language model — with their logic verified by Verus.

## Layout

- `src/` — the verified library.
  - `bpe`, `sentencepiece_bpe`, `wordpiece`, `unigram`: one module per
    algorithm. Training and tokenization are specified by spec functions
    (`bpe_rules`, `sp_model_spec`, `spec_tokenize_word`, `sp_tokenize`, …)
    and each public function's `ensures` states its result exactly.
  - `engine`, `pairs`, `merging`, `vocab`, `frequency`: the merge loop on
    token ids, pair counting and the choice of the best pair, merging a pair
    in a token sequence, the interning vocabulary, token frequency tables.
  - `cli`, `input`: command-line option lookup and number parsing, and
    reading a corpus text (lines trimmed, `#` comments skipped).
  - `fxmap`, `sorting`, `text`: the trusted wrappers around
    `rustc_hash::FxHashMap`, std's `sort_by`, `String::push` and rayon's
    parallel chunk counting, each with the contract it is trusted for.
- `tests/` — scenario tests run against the compiled library.
- `app/` — the command-line program (`tokenizers bpe|sp|wordpiece|unigram`)
  and the floating-point parts: WordPiece scores, SentencePiece character
  coverage as a fraction, and the Unigram model's probabilities, EM and
  Viterbi dynamic programme.

Floating-point values never enter the library. Where a float decides an
order (the WordPiece score, the Unigram pruning contribution), the program
passes the score's bit pattern, which orders non-negative floats as their
values, and the library makes the decision.
