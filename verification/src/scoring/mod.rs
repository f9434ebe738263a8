//! The two scorers: keyword overlap, and the counting and ranking stages of
//! TF-IDF.

pub mod keyword;
pub mod tfidf;
