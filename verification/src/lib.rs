//! A small notation for finite-state automata: a tokenizer for the
//! whitespace-separated lexeme grammar, a builder that folds token streams
//! into an automaton store, and a graph-description exporter.

pub mod eoa;
pub mod models;
pub mod text;
