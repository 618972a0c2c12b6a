//! An embeddable, append-only key/value storage engine in the Bitcask style.
//!
//! All writes are serialized as log records appended to the tail of an active
//! data file; an in-memory index maps each live key to the position of its
//! most recent record. The store is modelled over in-memory data files: the
//! engine owns the byte contents of every file in its directory, and a thin
//! I/O layer outside this crate mirrors those bytes to disk.

mod data_file;
mod db;
mod error;
mod fio;
mod index;
mod log_record;
mod options;

pub use data_file::DataFile;
pub use data_file::FileView;
pub use db::DirEntry;
pub use db::Engine;
pub use db::check_options;
pub use db::file_name_of;
pub use db::lemma_file_name_roundtrip;
pub use db::lemma_put_preserves_others;
pub use db::lemma_recovery_equivalence;
pub use db::lemma_reopen_preserves_state;
pub use db::lemma_round_trip;
pub use db::lemma_tombstone;
pub use error::Errors;
pub use error::Result;
pub use fio::IoManger;
pub use index::Indexer;
pub use index::KeyDir;
pub use index::bytes_eq;
pub use index::new_indexer;
pub use log_record::LogRecord;
pub use log_record::LogRecordPos;
pub use log_record::LogRecordType;
pub use log_record::ReadLogRecord;
pub use log_record::decode_log_record;
pub use options::IndexType;
pub use options::Options;
