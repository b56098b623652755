//! A BK-tree: an index over a growing set of strings that answers
//! "which stored strings lie within a given edit distance of a query"
//! without scanning every entry, by pruning on the triangle inequality
//! of the Levenshtein metric.

pub mod metric;
pub mod tree;
