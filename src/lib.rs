//! A dictionary-driven morphological analyzer: a double-array trie over byte
//! keys, a connection-cost matrix, a flat binary container holding both, and a
//! minimum-cost lattice search over input text.
pub mod dictionary;
pub mod lattice;
pub mod lexicon;
pub mod matrix_source;
pub mod token;
