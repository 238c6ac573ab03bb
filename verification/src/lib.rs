//! A verified engine that tokenizes fan-subtitled media filenames into
//! categorized atoms and identifies keywords (release group, season,
//! episode, resolution, checksum, ...) against an immutable dictionary.
//!
//! The lexer ([`tokenizer`]) splits a raw name into atoms; the stream owner
//! ([`token_manager`]) assigns identities and shapes and matches atoms
//! against the dictionary ([`keyword_manager`]); the driver ([`parser`])
//! runs the fixed pass sequence; [`laws`] proves the stream-level
//! invariants the passes maintain.

pub mod keyword;
pub mod keyword_manager;
pub mod laws;
pub mod metadata;
pub mod parser;
pub mod token;
pub mod token_helper;
pub mod token_manager;
pub mod tokenizer;
pub mod utils;
