//! Query planning over the segments of an index and selection of the best
//! results.
pub mod ranking;
pub mod searcher;

pub use ranking::top_k;
pub use searcher::FileSearcher;
