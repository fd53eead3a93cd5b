//! Filters a stream of words down to those within a given edit distance of a
//! search word, either lazily in input order or by partitioning the words into
//! chunks that independent workers can scan.
pub mod distance;
pub mod lfilter;
pub mod pfilter;
pub mod modes;
