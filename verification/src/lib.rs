//! Infers a total order over a character alphabet from a list of words that
//! is already sorted by that unknown order, via a precedence graph and a
//! max-plus longest-path closure.

pub mod closure;
pub mod order;
pub mod graph;
pub mod indexer;
pub mod rank;

pub use order::lexical_order;
pub use order::spec_lexical_order;
pub use rank::sorted_indices;
pub use rank::OrderError;
pub use closure::maxplus;
pub use closure::maxplus_row;
pub use graph::adjacency;
pub use indexer::index_chars;
pub use indexer::restore_chars;
pub use indexer::alphabet;
pub use indexer::words_view;
