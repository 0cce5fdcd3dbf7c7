//! Span-preserving parsing of bazelrc configuration files.
//!
//! A bazelrc file holds one directive per line: an optional command, an optional
//! named configuration, a list of flags and an optional comment, written in a
//! shell-like quoting and escaping dialect. The parser records for every decoded
//! piece of text the byte range of the source it was read from.
pub mod bazel_flags;
pub mod parser;
pub mod parser_proofs;
pub mod tokenizer;
pub mod tokenizer_proofs;
pub mod utf8;
