//! A retrieval engine for flashcard-style question/answer pairs: tokenisation,
//! a topic index, keyword-overlap scoring and the counting and ranking stages
//! of TF-IDF scoring, each with a verified contract.

pub mod text;
pub mod order;
pub mod token_set;
pub mod config;
pub mod tokenise;
pub mod data_model;
pub mod ranking;
pub mod scoring;
pub mod topics;
pub mod term_counts;
pub mod timing;
pub mod normalise;
pub mod decks;
