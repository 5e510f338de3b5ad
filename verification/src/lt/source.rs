//! The encoder: a blob split into blocks, and packets made of them.

use crate::block::{Block, BLOCK_BYTES};
use crate::distributions::{
    answers, selects, table_of, Distribution, ProbabilityDensityFunction, UNIT,
};
use crate::lt::combine::combine;
use crate::lt::packet::{LtPacket, PacketView};
use crate::lt::peeling::encodes;
use crate::lt::select::{choose_blocks_to_combine, combined_count};
use crate::metadata::{block_count, Metadata};
use crate::{CreationError, Encoder, PartialEncoder, Source};
use rand::StdRng;
use vstd::prelude::*;

verus! {

/// Block `index` of a blob: its bytes from `index * BLOCK_BYTES` on, with
/// zero bytes behind the end of the blob.
pub open spec fn chunk(data: Seq<u8>, index: int) -> Seq<u8> {
    Seq::new(
        BLOCK_BYTES as nat,
        |j: int|
            if index * 1024 + j < data.len() {
                data[index * 1024 + j]
            } else {
                0u8
            },
    )
}

/// The blocks of a blob, by id.
pub open spec fn source_blocks(data: Seq<u8>) -> Map<u32, Seq<u8>> {
    Map::new(|id: u32| id < block_count(data.len() as int), |id: u32| chunk(data, id as int))
}

/// Splits a blob into its blocks.
fn split_blocks(data: &Vec<u8>, count: u32) -> (blocks: Vec<Block>)
    requires
        data@.len() > 0,
        count == block_count(data@.len() as int),
    ensures
        blocks@.len() == count,
        forall|k: int| 0 <= k < count ==> (#[trigger] blocks@[k])@ == chunk(data@, k),
{
    let len = data.len();
    let mut blocks: Vec<Block> = Vec::new();
    let mut offset: usize = 0;
    let mut k: u32 = 0;
    while k < count
        invariant
            k <= count,
            len == data@.len(),
            count == block_count(len as int),
            k < count ==> offset == k * 1024 && offset < len,
            blocks@.len() == k,
            forall|i: int| 0 <= i < k ==> (#[trigger] blocks@[i])@ == chunk(data@, i),
        decreases count - k,
    {
        let rest = len - offset;
        let width = if rest < BLOCK_BYTES {
            rest
        } else {
            BLOCK_BYTES
        };
        let mut block = Block::new();
        let mut j: usize = 0;
        while j < width
            invariant
                j <= width <= BLOCK_BYTES,
                offset + width <= len,
                len == data@.len(),
                forall|i: int| 0 <= i < j ==> block.data@[i] == data@[offset + i],
                forall|i: int| j <= i < BLOCK_BYTES ==> block.data@[i] == 0u8,
            decreases width - j,
        {
            block.data[j] = data[offset + j];
            j += 1;
        }
        assert(block@ =~= chunk(data@, k as int));
        blocks.push(block);
        offset = offset + width;
        k += 1;
    }
    blocks
}

/// The encoder of one blob.
#[derive(Debug)]
pub struct LtSource {
    blocks: Vec<Block>,
    distribution: Distribution,
}

impl LtSource {
    /// The blocks of the blob, by id.
    pub closed spec fn blocks(&self) -> Map<u32, Seq<u8>> {
        Map::new(|id: u32| id < self.blocks@.len(), |id: u32| self.blocks@[id as int]@)
    }

    /// The invariant: there is a block, no more blocks than ids, and the
    /// sampler draws degrees up to their number.
    pub closed spec fn well_formed(&self) -> bool {
        &&& 1 <= self.blocks@.len() <= u32::MAX
        &&& self.distribution.well_formed()
        &&& self.distribution.limit() == self.blocks@.len()
    }

    /// The cumulative table of the sampler that degrees are drawn from: the
    /// entry at `i` belongs to degree `i + 1`.
    pub closed spec fn table(&self) -> Seq<u64> {
        self.distribution.table()
    }

    /// The number of blocks, in ghost code.
    pub closed spec fn spec_block_count(&self) -> usize {
        self.blocks@.len() as usize
    }

    /// The number of blocks of the blob.
    #[verifier::when_used_as_spec(spec_block_count)]
    pub fn block_count(&self) -> (count: usize)
        ensures
            count == self.block_count(),
    {
        self.blocks.len()
    }

    /// The ids of the blocks are those below the block count, every block
    /// has the full width, and the sampler has a degree for each block.
    pub proof fn lemma_blocks(&self)
        requires
            self.well_formed(),
        ensures
            1 <= self.block_count() <= u32::MAX,
            self.table().len() == self.block_count(),
            forall|id: u32| self.blocks().dom().contains(id) <==> id < self.block_count(),
            forall|id: u32|
                self.blocks().dom().contains(id) ==> (#[trigger] self.blocks()[id]).len()
                    == BLOCK_BYTES,
    {
        self.distribution.lemma_table_len();
    }

    /// The encoder of `data` that draws from `rng`: `DataZeroBytes` for the
    /// empty blob, `InvalidMetadata` where the blob does not have the
    /// declared size, `DataTooBig` where it has more than `u32::MAX` blocks.
    pub fn with_rng<D: ProbabilityDensityFunction>(
        metadata: Metadata,
        data: Vec<u8>,
        density_function: &D,
        rng: StdRng,
    ) -> (result: Result<LtSource, CreationError>)
        ensures
            match result {
                Ok(source) => {
                    &&& data@.len() > 0
                    &&& metadata.data_bytes() == data@.len()
                    &&& block_count(data@.len() as int) <= u32::MAX
                    &&& source.well_formed()
                    &&& source.block_count() == block_count(data@.len() as int)
                    &&& source.blocks() == source_blocks(data@)
                    &&& exists|weights: Seq<u64>|
                        answers(
                            density_function,
                            block_count(data@.len() as int) as u32,
                            weights,
                        ) && source.table() == table_of(weights)
                },
                Err(CreationError::DataZeroBytes) => metadata.data_bytes() == 0,
                Err(CreationError::InvalidMetadata) => metadata.data_bytes() != 0
                    && metadata.data_bytes() != data@.len(),
                Err(CreationError::DataTooBig) => metadata.data_bytes() != 0
                    && metadata.data_bytes() == data@.len() && block_count(data@.len() as int)
                    > u32::MAX,
                Err(CreationError::RandomInitializationError(_)) => false,
            },
    {
        match LtSource::partition(metadata, data) {
            Ok(blocks) => {
                let distribution = Distribution::with_rng(
                    density_function,
                    blocks.len() as u32,
                    rng,
                );
                Ok(LtSource { blocks, distribution })
            },
            Err(error) => Err(error),
        }
    }

    /// The blocks of `data`, where it is a blob of the declared size.
    fn partition(metadata: Metadata, data: Vec<u8>) -> (result: Result<Vec<Block>, CreationError>)
        ensures
            match result {
                Ok(blocks) => {
                    &&& data@.len() > 0
                    &&& metadata.data_bytes() == data@.len()
                    &&& 1 <= blocks@.len() <= u32::MAX
                    &&& blocks@.len() == block_count(data@.len() as int)
                    &&& forall|k: int|
                        0 <= k < blocks@.len() ==> (#[trigger] blocks@[k])@ == chunk(data@, k)
                },
                Err(CreationError::DataZeroBytes) => metadata.data_bytes() == 0,
                Err(CreationError::InvalidMetadata) => metadata.data_bytes() != 0
                    && metadata.data_bytes() != data@.len(),
                Err(CreationError::DataTooBig) => metadata.data_bytes() != 0
                    && metadata.data_bytes() == data@.len() && block_count(data@.len() as int)
                    > u32::MAX,
                Err(CreationError::RandomInitializationError(_)) => false,
            },
    {
        let data_bytes = metadata.data_bytes();
        if data_bytes == 0 {
            return Err(CreationError::DataZeroBytes);
        }
        if data_bytes != data.len() as u64 {
            return Err(CreationError::InvalidMetadata);
        }
        let count = metadata.data_blocks();
        if count > u32::MAX as u64 {
            return Err(CreationError::DataTooBig);
        }
        Ok(split_blocks(&data, count as u32))
    }

    /// The packet that combines the blocks named by `ids`.
    pub fn combine_blocks(&self, ids: Vec<u32>) -> (packet: LtPacket)
        requires
            self.well_formed(),
            forall|i: int| 0 <= i < ids@.len() ==> (#[trigger] ids@[i]) < self.block_count(),
        ensures
            packet@ == (PacketView { ids: ids@, data: combine(self.blocks(), ids@) }),
            encodes(self.blocks(), packet@),
    {
        let mut new_block = Block::new();
        let mut i: usize = 0;
        while i < ids.len()
            invariant
                i <= ids.len(),
                forall|i: int| 0 <= i < ids@.len() ==> (#[trigger] ids@[i]) < self.blocks@.len(),
                new_block@ == combine(self.blocks(), ids@.take(i as int)),
            decreases ids.len() - i,
        {
            let id = ids[i];
            proof {
                assert(ids@.take(i + 1).drop_last() =~= ids@.take(i as int));
                assert(ids@.take(i + 1).last() == id);
                assert(id == ids@[i as int]);
            }
            new_block.xor_assign(&self.blocks[id as usize]);
            i += 1;
        }
        assert(ids@.take(i as int) =~= ids@);
        LtPacket::new(ids, new_block)
    }
}

impl Encoder<LtPacket> for LtSource {
    open spec fn can_encode(&self) -> bool {
        self.well_formed()
    }

    /// A new packet: a degree is drawn, that many distinct blocks are drawn,
    /// and the packet combines them. The degree is the one that some draw
    /// below `UNIT` selects from the table.
    fn create_packet(&mut self) -> (packet: LtPacket)
        ensures
            final(self).blocks() == old(self).blocks(),
            final(self).block_count() == old(self).block_count(),
            final(self).table() == old(self).table(),
            encodes(old(self).blocks(), packet@),
            packet@.ids.no_duplicates(),
            1 <= packet@.ids.len() <= old(self).block_count(),
            exists|selector: u64|
                selector < UNIT && #[trigger] selects(
                    old(self).table(),
                    selector,
                    packet@.ids.len() as int,
                ),
    {
        let block_count = self.blocks.len();
        let mut blocks: Vec<u32> = Vec::new();
        let mut i: usize = 0;
        while i < block_count
            invariant
                i <= block_count,
                block_count == self.blocks@.len(),
                block_count <= u32::MAX,
                blocks@.len() == i,
                forall|k: int| 0 <= k < i ==> blocks@[k] == k,
            decreases block_count - i,
        {
            blocks.push(i as u32);
            i += 1;
        }
        let ghost all = blocks@;
        assert(all.no_duplicates());
        choose_blocks_to_combine(&mut self.distribution, &mut blocks);
        proof {
            let (selector, degree) = choose|selector: u64, degree: int|
                selector < UNIT && #[trigger] selects(old(self).table(), selector, degree)
                    && blocks@.len() == combined_count(all.len() as int, degree);
            old(self).distribution.lemma_table_len();
            assert(degree <= all.len());
            assert(selects(old(self).table(), selector, blocks@.len() as int));
            assert forall|k: int| 0 <= k < blocks@.len() implies (#[trigger] blocks@[k])
                < self.blocks@.len() by {
                assert(all.contains(blocks@[k]));
                let at = choose|at: int| 0 <= at < all.len() && all[at] == blocks@[k];
                assert(all[at] == at);
            }
        }
        self.combine_blocks(blocks)
    }
}

impl PartialEncoder<LtPacket> for LtSource {
    open spec fn can_relay(&self) -> bool {
        self.well_formed()
    }

    /// A new packet, as `create_packet` makes it: an encoder of a whole blob
    /// always has one to give.
    fn try_create_packet(&mut self) -> (result: Option<LtPacket>)
        ensures
            final(self).blocks() == old(self).blocks(),
            final(self).block_count() == old(self).block_count(),
            final(self).table() == old(self).table(),
            result matches Some(packet) && encodes(old(self).blocks(), packet@)
                && packet@.ids.no_duplicates() && 1 <= packet@.ids.len() <= old(
                self,
            ).block_count() && exists|selector: u64|
                selector < UNIT && #[trigger] selects(
                    old(self).table(),
                    selector,
                    packet@.ids.len() as int,
                ),
    {
        Some(self.create_packet())
    }
}

impl Source<LtPacket> for LtSource {
    /// The encoder of `data` with a freshly seeded generator: `DataZeroBytes`
    /// for the empty blob, `InvalidMetadata` where the blob does not have the
    /// declared size, `DataTooBig` where it has more than `u32::MAX` blocks.
    /// Where none of these holds, it fails only where seeding does.
    fn new<D: ProbabilityDensityFunction>(
        metadata: Metadata,
        data: Vec<u8>,
        density_function: &D,
    ) -> (result: Result<LtSource, CreationError>)
        ensures
            match result {
                Ok(source) => {
                    &&& data@.len() > 0
                    &&& metadata.data_bytes() == data@.len()
                    &&& block_count(data@.len() as int) <= u32::MAX
                    &&& source.well_formed()
                    &&& source.block_count() == block_count(data@.len() as int)
                    &&& source.blocks() == source_blocks(data@)
                    &&& exists|weights: Seq<u64>|
                        answers(
                            density_function,
                            block_count(data@.len() as int) as u32,
                            weights,
                        ) && source.table() == table_of(weights)
                },
                Err(CreationError::DataZeroBytes) => metadata.data_bytes() == 0,
                Err(CreationError::InvalidMetadata) => metadata.data_bytes() != 0
                    && metadata.data_bytes() != data@.len(),
                Err(CreationError::DataTooBig) => metadata.data_bytes() != 0
                    && metadata.data_bytes() == data@.len() && block_count(data@.len() as int)
                    > u32::MAX,
                Err(CreationError::RandomInitializationError(_)) => metadata.data_bytes() != 0
                    && metadata.data_bytes() == data@.len() && block_count(data@.len() as int)
                    <= u32::MAX,
            },
    {
        match LtSource::partition(metadata, data) {
            Ok(blocks) => {
                match Distribution::new(density_function, blocks.len() as u32) {
                    Ok(distribution) => Ok(LtSource { blocks, distribution }),
                    Err(error) => Err(CreationError::RandomInitializationError(error)),
                }
            },
            Err(error) => Err(error),
        }
    }
}

} // verus!
