//! Builders of blocks and SST files.

pub mod data_block;
pub mod footer;
pub mod image;
pub mod index_block;
pub mod sst;
pub mod sst_writer;

pub use data_block::DataBlockBuilder;
pub use footer::SstFooter;
pub use index_block::{IndexBlockBuilder, IndexEntry};
pub use sst::SstOption;
pub use sst_writer::{DefaultSstWriter, SstWriter};
