//! Byte pair encoding: a tokenizer that learns merges of adjacent symbols
//! from a corpus and maps text to symbol sequences and back.
//!
//! Text is first cut into chunks ([`chunker`]); each chunk is a sequence of
//! symbols ([`chunks`]), at first its bytes. Training ([`trainer`]) counts
//! adjacent pairs ([`pairs`]), mints a symbol for the pair that occurs most,
//! and merges it in every chunk ([`merge`]); the rules it mints make up a
//! [`vocabulary`]. Encoding replays the rules on new text, and decoding
//! unfolds the symbols again ([`codec`]). What holds of all of this together
//! is proved in [`laws`].

pub mod chunker;
pub mod chunks;
pub mod codec;
pub mod laws;
pub mod merge;
pub mod pairs;
pub mod trainer;
pub mod unicode;
pub mod vocabulary;

pub use chunker::split;
pub use codec::{decode, encode};
pub use pairs::{pair_counts, PairCounts};
pub use trainer::{execute, train_tokenizer};
pub use vocabulary::Vocabulary;
