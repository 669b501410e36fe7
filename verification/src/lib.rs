//! Ranks a collection of textual test-case documents by diversity: a pairwise
//! dissimilarity matrix over the documents is built from a word-set Jaccard
//! similarity metric, and a greedy farthest-first selection turns the matrix
//! into an execution order that runs the most dissimilar cases first.

pub mod builder;
pub mod describe;
pub mod jaccard;
pub mod laws;
pub mod matrix;
pub mod perm;
pub mod prio;
pub mod ratio;
