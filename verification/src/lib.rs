//! Reverse indexes, references and graph rendering for a static analysis model of Ruby code.

pub mod ids;
pub mod offset;
pub mod text;
pub mod references;
pub mod seqs;
pub mod graph_indexes;
pub mod model;
pub mod graph;
pub mod dot;
pub mod signature;
pub mod resolution;
