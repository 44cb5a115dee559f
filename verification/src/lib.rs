//! Persistence and document-discovery layer of a document question-answering
//! service: `DatabendDriver` serializes answered queries into an append-only
//! SQL log table with injection-safe string escaping, and `FileOperator`
//! discovers candidate source documents by extension with directory
//! exclusions and a deterministic ordering.

pub mod base;
pub mod db;
pub mod file;

pub use base::escape_sql_string;
pub use db::DatabendDriver;
pub use file::FileMeta;
pub use file::FileOperator;
