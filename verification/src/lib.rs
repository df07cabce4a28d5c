//! A fuzzy, fragment-based matching engine: query names are broken into
//! prefix fragments (longest first), fragments are searched for in a catalog
//! of candidate lines, matches are scored and deduplicated case-insensitively,
//! the matched part of each candidate is marked by upper-casing it, and the
//! results are ordered by descending score and windowed by rank tier.

pub mod chars;
pub mod search;
pub mod lines;
pub mod engine;
pub mod rank;
pub mod window;
pub mod cli;
