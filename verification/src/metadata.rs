//! The declared size of a blob.

use crate::block::BLOCK_BYTES;
use vstd::prelude::*;

verus! {

/// The number of blocks that a blob of `data_bytes` bytes is split into: the
/// size divided by the block width, rounded up.
pub open spec fn block_count(data_bytes: int) -> int {
    (data_bytes + BLOCK_BYTES - 1) / (BLOCK_BYTES as int)
}

/// The size in bytes of the blob that an encoder and its decoders work on.
#[derive(Debug, Clone, Copy)]
pub struct Metadata {
    data_bytes: u64,
}

impl Metadata {
    /// The metadata of a blob of `data_bytes` bytes.
    pub fn new(data_bytes: u64) -> (metadata: Metadata)
        ensures
            metadata.data_bytes() == data_bytes,
    {
        Metadata { data_bytes }
    }

    /// The size of the blob, in ghost code.
    pub closed spec fn spec_data_bytes(&self) -> u64 {
        self.data_bytes
    }

    /// The size of the blob in bytes.
    #[verifier::when_used_as_spec(spec_data_bytes)]
    pub fn data_bytes(&self) -> (data_bytes: u64)
        ensures
            data_bytes == self.data_bytes(),
    {
        self.data_bytes
    }

    /// The number of blocks of the blob, in ghost code.
    pub open spec fn spec_data_blocks(&self) -> int {
        block_count(self.data_bytes() as int)
    }

    /// The number of blocks of the blob, as far as a 64-bit count holds it:
    /// the size divided by the block width, rounded up.
    pub fn data_blocks(&self) -> (blocks: u64)
        ensures
            blocks == self.spec_data_blocks(),
    {
        let whole = self.data_bytes / (BLOCK_BYTES as u64);
        if self.data_bytes % (BLOCK_BYTES as u64) == 0 {
            whole
        } else {
            whole + 1
        }
    }
}

} // verus!
