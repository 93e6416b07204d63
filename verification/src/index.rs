//! Segments on disk and the in-memory index for recent writes.
pub mod answers;
pub mod dictionary;
pub mod memory;
pub mod postings_iter;
pub mod ram;
pub mod reader;
pub mod realtime;
pub mod segment;
pub mod term_table;
pub mod wal;
pub mod writer;

pub use postings_iter::PostingsIter;
pub use ram::{Document, RamIndex};
pub use reader::SegmentReader;
pub use segment::{BatchData, ChunkTerms, IndexMeta, ProcessedDoc, SegmentFiles, SegmentMeta};
pub use writer::{build_segment, build_segment_with, BuildError};
