//! Skip-gram word embeddings with negative sampling: the integer core.
//!
//! The crate holds the parts of a word2vec trainer that decide *what* is
//! trained on: the vocabulary, the negative-sampling table and its cursor,
//! the context windows, the shard boundaries of a corpus, the layout of the
//! matrices and the bookkeeping of the learning-rate schedule. Every function
//! is verified against a contract over mathematical models of its data.
//!
//! The arithmetic on the embedding vectors is floating point and is left to
//! the caller, as are files and threads.

pub mod dictionary;
pub mod file_utils;
pub mod matrix;
pub mod negative;
pub mod numeric;
pub mod random;
pub mod rank;
pub mod sampler;
pub mod schedule;
pub mod shards;
pub mod tokens;
pub mod train;
pub mod utils;
pub mod window;
pub mod word_table;

pub use file_utils::LoadOptions;
pub use utils::{Command, W2vError};
