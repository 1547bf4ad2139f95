//! Field-level index over an append-only, line-delimited JSON data file.
pub mod field_type;
pub mod handler;
pub mod index_file;
pub mod json_tokenizer;
pub mod protocol;
pub mod scanner;
pub mod text;
pub mod walker;

pub use field_type::{FieldFlags, FieldType};
pub use handler::{DataHandler, JSONLHandler};
pub use index_file::{Index, IndexFile, IndexKey, SyncError};
pub use json_tokenizer::{JSONTokenizer, Token};
pub use protocol::{IndexFileHeader, IndexHeader, IndexRecord, Version};
