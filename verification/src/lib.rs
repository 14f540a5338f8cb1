//! Fuzzy substring-matching and ranking engine.
//!
//! Given a query string and a collection of candidate strings, the library
//! scores each candidate by how much of it is covered by occurrences of the
//! query's space-delimited terms, and returns the best candidates ordered by
//! descending relevance.  Scores are exact rationals: the numerator counts
//! covered bytes (clamped to the candidate's length) and the denominator is
//! the candidate's byte length, so a score always lies in `[0, 1]`.

pub mod matching;
