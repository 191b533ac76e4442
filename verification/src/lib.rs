//! A belief graph over sources, questions and answers.
//!
//! Sources give answers to questions. The graph estimates how reliable each
//! source is from how often it agrees with the believed answer, and ranks the
//! answers to a question by the reliability of the sources behind them.
//!
//! The graph is driven by commands ([`command`]), which it carries out one
//! at a time ([`graph`]). Answers are compared by one of several comparisons
//! ([`equalifier`]) and grouped into clusters ([`cluster`]). The numbers of
//! the graph are of a type that the caller supplies ([`scalar`]). Contracts
//! speak of the numbers through the names of the type's operations, and hold
//! for every number type whose operations are functions of their arguments.

pub mod cluster;
pub mod command;
pub mod config;
pub mod equalifier;
pub mod graph;
pub mod scalar;
pub mod text;
