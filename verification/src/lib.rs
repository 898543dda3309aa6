//! The analysis core of a reference-graph static analyzer: the graph vocabulary, the
//! finding model and its presentation order, git plumbing parsers, the claim pass, the
//! per-file declaration edges and qualified resolution, the mount forest, package
//! collection and ownership, and the graph-derivation passes (surface closure,
//! provenance index, plugin rounds, graph key).

pub mod text;
pub mod vocab;
pub mod engine;
pub mod gitutil;
pub mod seqs;
pub mod fx;
pub mod graph;
pub mod ownership;
pub mod extract;
pub mod mounts;
pub mod assembly;
