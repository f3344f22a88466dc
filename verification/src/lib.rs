//! A structural code search engine: declarative rules are matched against
//! parsed syntax trees, across languages, including languages embedded
//! inside other languages (script blocks inside markup).
//!
//! The library covers the rule composition and dependency-resolution layer,
//! the strictness-aware node comparison used while walking trees, injection
//! resolution, and the pure core of the scan orchestration (pre-filtering,
//! per-file match extraction, item delivery). File discovery, parsing and
//! all terminal interaction live outside the library and hand it plain
//! values.

pub mod deserialize_env;
pub mod matcher;
pub mod resolver;
pub mod rule;
pub mod scan;
pub mod strictness;
pub mod text;
pub mod tree;
pub mod worker;

use vstd::prelude::*;

verus! {

/// Upper bound on the byte length of a file the scanner will parse,
/// when the line bound is also exceeded.
pub const MAX_FILE_SIZE: usize = 3_000_000;

/// Upper bound on the line count of a file the scanner will parse,
/// when the byte bound is also exceeded.
pub const MAX_LINE_COUNT: usize = 200_000;

} // verus!
