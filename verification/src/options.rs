use vstd::prelude::*;

verus! {

/// Configuration for opening an [`crate::Engine`].
#[derive(Clone, Debug)]
pub struct Options {
    /// Filesystem path of the database directory; must be non-empty.
    pub dir_path: String,
    /// Size threshold, in bytes, at which the active data file is rotated;
    /// must be greater than zero.
    pub data_file_size: u64,
    /// When true, every append is made durable before the write returns.
    pub sync_write: bool,
    /// Which in-memory index implementation to use.
    pub index_type: IndexType,
}

/// The recognized in-memory index implementations.
#[derive(Clone, Copy, Debug)]
pub enum IndexType {
    /// An ordered map; the default.
    BTree,
    /// A skip list, offered under the same index contract.
    SkipList,
}

impl Default for IndexType {
    fn default() -> (r: Self)
        ensures
            r is BTree,
    {
        IndexType::BTree
    }
}

} // verus!
