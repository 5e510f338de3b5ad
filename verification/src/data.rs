//! Metadata that carries the block count with the size.

use vstd::prelude::*;

verus! {

/// `data_bytes` divided by `block_bytes`, rounded up.
pub open spec fn blocks_needed(data_bytes: int, block_bytes: int) -> int {
    (data_bytes + block_bytes - 1) / block_bytes
}

/// Why a size is not the size of a blob.
#[derive(Debug, Clone, Copy, PartialEq, Eq, Structural)]
pub enum MetadataError {
    /// The blob is empty.
    DataZeroBytes,
    /// The blob has more blocks than a 32-bit id can name.
    DataTooBig,
}

/// The size of a blob in bytes, and the number of blocks it is split into.
#[derive(Debug, Clone, Copy, PartialEq, Eq, Structural)]
pub struct Metadata {
    data_bytes: u64,
    data_blocks: u32,
}

impl Metadata {
    /// The invariant: the blob is not empty, and the block count is the one
    /// that some block width gives.
    pub closed spec fn well_formed(&self) -> bool {
        self.data_bytes > 0 && exists|block_bytes: u32|
            block_bytes > 0 && self.data_blocks == #[trigger] blocks_needed(
                self.data_bytes as int,
                block_bytes as int,
            )
    }

    /// A well-formed blob is not empty and has a block.
    pub proof fn lemma_well_formed(&self)
        requires
            self.well_formed(),
        ensures
            self.data_bytes() > 0,
            self.data_blocks() > 0,
    {
        let block_bytes = choose|block_bytes: u32|
            block_bytes > 0 && self.data_blocks == #[trigger] blocks_needed(
                self.data_bytes as int,
                block_bytes as int,
            );
        lemma_blocks_needed(self.data_bytes as int, block_bytes as int);
    }

    /// What `new` returns, in ghost code.
    pub closed spec fn spec_new(data_bytes: u64, block_bytes: u32) -> Result<
        Metadata,
        MetadataError,
    > {
        let blocks = blocks_needed(data_bytes as int, block_bytes as int);
        if data_bytes == 0 {
            Err(MetadataError::DataZeroBytes)
        } else if blocks > u32::MAX {
            Err(MetadataError::DataTooBig)
        } else {
            Ok(Metadata { data_bytes, data_blocks: blocks as u32 })
        }
    }

    /// The metadata of a blob of `data_bytes` bytes that is split into blocks
    /// of `block_bytes` bytes: `DataZeroBytes` for the empty blob, and
    /// `DataTooBig` where the number of blocks exceeds `u32::MAX`.
    #[verifier::when_used_as_spec(spec_new)]
    pub fn new(data_bytes: u64, block_bytes: u32) -> (result: Result<Metadata, MetadataError>)
        requires
            block_bytes > 0,
        ensures
            result == Metadata::new(data_bytes, block_bytes),
            match result {
                Ok(metadata) => {
                    &&& data_bytes > 0
                    &&& metadata.well_formed()
                    &&& metadata.data_bytes() == data_bytes
                    &&& metadata.data_blocks() == blocks_needed(
                        data_bytes as int,
                        block_bytes as int,
                    )
                },
                Err(MetadataError::DataZeroBytes) => data_bytes == 0,
                Err(MetadataError::DataTooBig) => data_bytes > 0 && blocks_needed(
                    data_bytes as int,
                    block_bytes as int,
                ) > u32::MAX,
            },
    {
        if data_bytes == 0 {
            return Err(MetadataError::DataZeroBytes);
        }
        let width = block_bytes as u64;
        let whole = data_bytes / width;
        let extra_block: u64 = if data_bytes % width == 0 {
            0
        } else {
            1
        };
        proof {
            lemma_blocks_needed(data_bytes as int, block_bytes as int);
        }
        let data_blocks = whole + extra_block;
        if data_blocks > u32::MAX as u64 {
            return Err(MetadataError::DataTooBig);
        }
        Ok(Metadata { data_bytes, data_blocks: data_blocks as u32 })
    }

    /// The size of the blob, in ghost code.
    pub closed spec fn spec_data_bytes(&self) -> u64 {
        self.data_bytes
    }

    /// The size of the blob in bytes.
    #[verifier::when_used_as_spec(spec_data_bytes)]
    pub fn data_bytes(&self) -> (data_bytes: u64)
        ensures
            data_bytes == self.data_bytes(),
    {
        self.data_bytes
    }

    /// The number of blocks, in ghost code.
    pub closed spec fn spec_data_blocks(&self) -> u32 {
        self.data_blocks
    }

    /// The number of blocks of the blob.
    #[verifier::when_used_as_spec(spec_data_blocks)]
    pub fn data_blocks(&self) -> (data_blocks: u32)
        ensures
            data_blocks == self.data_blocks(),
    {
        self.data_blocks
    }
}

/// Rounding up adds one block exactly where the width does not divide the
/// size; a blob that is not empty has a block, and no more blocks than bytes.
pub proof fn lemma_blocks_needed(data_bytes: int, block_bytes: int)
    requires
        data_bytes >= 0,
        block_bytes > 0,
    ensures
        blocks_needed(data_bytes, block_bytes) == data_bytes / block_bytes + (if data_bytes
            % block_bytes == 0 {
            0int
        } else {
            1int
        }),
        data_bytes > 0 ==> 1 <= blocks_needed(data_bytes, block_bytes) <= data_bytes,
        data_bytes / block_bytes >= 0,
{
    let q = data_bytes / block_bytes;
    let r = data_bytes % block_bytes;
    vstd::arithmetic::div_mod::lemma_fundamental_div_mod(data_bytes, block_bytes);
    assert(q >= 0 && (r > 0 ==> q + 1 <= data_bytes) && (data_bytes > 0 && r == 0 ==> 1 <= q
        <= data_bytes)) by (nonlinear_arith)
        requires
            data_bytes == block_bytes * q + r,
            0 <= r < block_bytes,
            data_bytes >= 0,
    ;
    if r == 0 {
        assert(data_bytes + block_bytes - 1 == q * block_bytes + (block_bytes - 1))
            by (nonlinear_arith)
            requires
                data_bytes == block_bytes * q + r,
                r == 0,
        ;
        vstd::arithmetic::div_mod::lemma_fundamental_div_mod_converse(
            data_bytes + block_bytes - 1,
            block_bytes,
            q,
            block_bytes - 1,
        );
    } else {
        assert(data_bytes + block_bytes - 1 == (q + 1) * block_bytes + (r - 1))
            by (nonlinear_arith)
            requires
                data_bytes == block_bytes * q + r,
        ;
        vstd::arithmetic::div_mod::lemma_fundamental_div_mod_converse(
            data_bytes + block_bytes - 1,
            block_bytes,
            q + 1,
            r - 1,
        );
    }
}

/// Every size from one byte up to `u32::MAX` blocks is the size of a blob:
/// its metadata holds the size and the rounded-up block count.
pub proof fn lemma_metadata_round_trip(data_bytes: u64, block_bytes: u32)
    requires
        block_bytes > 0,
        1 <= data_bytes <= (u32::MAX as int) * block_bytes,
    ensures
        1 <= blocks_needed(data_bytes as int, block_bytes as int) <= u32::MAX,
        Metadata::new(data_bytes, block_bytes) matches Ok(metadata) && metadata.data_bytes()
            == data_bytes && metadata.data_blocks() == blocks_needed(
            data_bytes as int,
            block_bytes as int,
        ),
{
    let q = data_bytes as int / block_bytes as int;
    let r = data_bytes as int % block_bytes as int;
    lemma_blocks_needed(data_bytes as int, block_bytes as int);
    vstd::arithmetic::div_mod::lemma_fundamental_div_mod(data_bytes as int, block_bytes as int);
    assert(q <= u32::MAX && (q == u32::MAX ==> r == 0) && (q == 0 ==> r > 0)) by (nonlinear_arith)
        requires
            1 <= data_bytes <= (u32::MAX as int) * block_bytes,
            block_bytes > 0,
            data_bytes == block_bytes * q + r,
            0 <= r < block_bytes,
    ;
}

} // verus!
