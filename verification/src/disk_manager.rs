//! SST file management: identifier allocation and the reading of a file's
//! footer span. The file operations themselves live outside the library.

use vstd::prelude::*;
use std::path::PathBuf;
use crate::codec::{be_value, read_u32_be};
use crate::errors::{StorageError, StorageResult};

verus! {

pub type SstId = u64;

/// Owns the SST files of an engine: their directory, their block size and
/// the counter that hands out SST identifiers (from 1 on).
pub struct DiskManager {
    data_dir: PathBuf,
    block_size: usize,
    next_sst_id: u64,
}

impl DiskManager {
    pub closed spec fn spec_block_size(&self) -> nat {
        self.block_size as nat
    }

    pub closed spec fn spec_next_sst_id(&self) -> u64 {
        self.next_sst_id
    }

    pub closed spec fn spec_data_dir(&self) -> PathBuf {
        self.data_dir
    }

    pub fn new(data_dir: PathBuf, block_size: usize) -> (m: Self)
        ensures
            m.spec_data_dir() == data_dir,
            m.spec_block_size() == block_size,
            m.spec_next_sst_id() == 1,
    {
        DiskManager { data_dir, block_size, next_sst_id: 1 }
    }

    pub fn block_size(&self) -> (n: usize)
        ensures
            n == self.spec_block_size(),
    {
        self.block_size
    }

    /// The directory holding the SST files.
    pub fn data_dir(&self) -> (d: &PathBuf)
        ensures
            *d == self.spec_data_dir(),
    {
        &self.data_dir
    }

    /// Hands out the next SST identifier; the counter wraps as an atomic
    /// counter does.
    pub fn allocate_sst_id(&mut self) -> (id: SstId)
        ensures
            id == old(self).spec_next_sst_id(),
            final(self).spec_next_sst_id() == (old(self).spec_next_sst_id() + 1) % 0x1_0000_0000_0000_0000,
            final(self).spec_block_size() == old(self).spec_block_size(),
            final(self).spec_data_dir() == old(self).spec_data_dir(),
    {
        let id = self.next_sst_id;
        self.next_sst_id = self.next_sst_id.wrapping_add(1);
        id
    }
}

/// Length of the footer (body and trailer) of a file of `file_size` bytes
/// whose last four bytes are `trailer` (the body length, big-endian). Fails
/// with `InvalidValue` when the file is too small for the trailer or for
/// the body it announces.
pub fn locate_footer(file_size: u64, trailer: &[u8]) -> (r: StorageResult<u64>)
    requires
        trailer@.len() == 4,
    ensures
        file_size < 4 ==> r is Err,
        file_size >= 4 ==> (r is Ok <==> be_value(trailer@) + 4 <= file_size),
        r matches Ok(n) ==> n == be_value(trailer@) + 4,
        r matches Err(e) ==> e is InvalidValue,
{
    if file_size < 4 {
        return Err(StorageError::InvalidValue("file too small for footer trailer".to_owned()));
    }
    let body_len = read_u32_be(trailer, 0) as u64;
    assert(trailer@.subrange(0, 4) =~= trailer@);
    let footer_total = body_len + 4;
    if file_size < footer_total {
        return Err(StorageError::InvalidValue("file too small for footer body".to_owned()));
    }
    Ok(footer_total)
}

} // verus!
