//! A byte-pair-encoding tokenizer whose splitting, merging and byte
//! handling are verified with Verus.

pub mod text;
pub mod collections;
pub mod bytes;
pub mod trie;
pub mod split;
pub mod bpe;
pub mod tokenizer;
pub mod roundtrip;
pub mod tables;
pub mod special_laws;
pub mod walk_check;
pub mod laws;

pub use tokenizer::Tokenizer;
