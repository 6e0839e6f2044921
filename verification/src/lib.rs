//! Signature scrubbing for text files.
//!
//! The library holds the rules of a batch tool that walks a directory tree
//! and rewrites text files, replacing every occurrence of a signature string
//! by a substitute. Everything here works on plain values: the caller reads
//! directories and files, hands their contents over, and writes the results
//! back.

pub mod config;
pub mod dirwalker;
pub mod dispatcher;
pub mod encoding;
pub mod extensions;
pub mod limiter;
pub mod processor;
pub mod text;
