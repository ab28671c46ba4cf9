//! Reduction of the "two-less sequence" problem to CNF satisfiability.
//!
//! A universe of triplets over `{1..n}^3` is indexed bijectively by integers;
//! for a sequence length `k` three clause families (coverage, uniqueness and
//! ordering) are generated and serialized in the DIMACS CNF text format.
pub mod sat;
pub mod triplet;
