//! An in-memory full-text ranking engine: documents are tokenized into
//! terms, an inverted index and per-document statistics are maintained
//! incrementally, and queries are answered with the top-k documents ranked
//! by a deterministic fixed-point BM25 relevance score.

mod index;
mod postings;
mod rank;
mod score;
mod stats;
mod table;
mod tokenizer;

pub use index::Index;
pub use index::IndexError;
pub use stats::DocumentStats;
pub use table::StrTable;
pub use tokenizer::stemmer;
pub use tokenizer::tokenize;
