//! File search core: the query parser, the virtual tree of candidate paths,
//! the best-first search over it, and the scoring of paths.

use vstd::prelude::*;

pub mod browse;
pub mod embedding;
pub mod engine;
pub mod folder_matrix;
pub mod everything;
pub mod indexing;
pub mod listing;
pub mod parser;
pub mod pipeline;
pub mod preview;
pub mod scoring;
pub mod semantic;
pub mod paths;
pub mod text;
pub mod tokenizer;
pub mod tree;
pub mod tune;

verus! {

} // verus!
