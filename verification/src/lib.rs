//! A verified core for a small line-oriented command interpreter.
//!
//! The crate holds the two nontrivial subsystems of such an interpreter —
//! the quote-and-escape-aware argument tokenizer and the working-directory
//! resolver — together with the dispatch logic that decides what a parsed
//! command line asks for.  All I/O (reading lines, printing, consulting the
//! filesystem or the environment, spawning processes) is left to the caller,
//! which hands plain values in and takes plain values back.

pub mod dispatcher;
pub mod resolver;
pub mod tokenizer;
