//! Retrieval over a corpus of documents: sentence-window chunking, a vector
//! index ranked by cosine similarity, a fuzzy index ranked by edit distance,
//! and the two databases that tie chunking to each index. Beside them stand
//! the node of a workflow graph and the text of a streamed completion.
//!
//! Nothing here holds a floating-point number. Embeddings have signed 8-bit
//! components, and every score is an exact ratio of integers.

pub mod chunk;
pub mod completion;
pub mod database;
pub mod embedding;
pub mod error;
pub mod fuzzy;
pub mod node;
pub mod rank;
pub mod score;
pub mod search;
pub mod text;
pub mod vector;

pub use chunk::{Chunk, ChunkStrategy, Chunker, Document};
pub use database::{DocumentDatabase, Embedder, FuzzySearchIndex};
pub use embedding::{Embedding, VectorSpace};
pub use error::{ConfigurationError, EmbeddingError};
pub use fuzzy::FuzzyIndex;
pub use score::Score;
pub use search::SearchResult;
pub use vector::VectorIndex;
