//! A semantic code-search index core: a line-oriented log of repository and
//! chunk records with a verified JSON codec, glob-based path filtering,
//! bounded top-K similarity ranking, and incremental sync planning.
//!
//! All logic here is pure: file, process and network I/O, as well as the
//! floating-point cosine computation itself, live outside the library and
//! exchange plain byte vectors and integer score keys with it.

pub mod bytes;
pub mod chunker;
pub mod glob;
pub mod index_file;
pub mod json;
pub mod search;
pub mod sync;
pub mod vcs;
