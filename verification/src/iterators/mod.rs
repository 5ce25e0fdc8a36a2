//! Storage iterators: block iterators, entry decoders and merging iterators.

pub mod storage_iter;
pub mod raw_entry;
pub mod vec_iter;
pub mod block_iter;
pub mod entry_decode_iter;
pub mod index_entry_decode_iter;
pub mod index_tree;
pub mod index_tree_iter;
pub mod sst_iter;
pub mod two_merge_iter;
pub mod concat_iter;
pub mod merge_iter;
pub mod map_iter;
pub mod scan_iter;
