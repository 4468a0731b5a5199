//! A full-text search library: a tokenizer, a term-frequency index over a
//! corpus of documents, a persisted index format, and a TF-IDF ranking
//! engine that turns a free-text query into a ranked list of documents.
pub mod chars;
pub mod codec;
pub mod lexer;
pub mod model;
pub mod rank;
pub mod score;
pub mod table;
