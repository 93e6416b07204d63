//! Core of a full-text search engine over a corpus of books: text analysis,
//! postings codecs, segment building and reading, query planning and the
//! in-memory index for recent writes.
pub mod analysis;
pub mod codecs;
pub mod document;
pub mod index;
pub mod pipeline;
pub mod search;
