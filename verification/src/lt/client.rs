//! The decoder: it takes packets in, peels them, and gives the blob back
//! once every block is decoded.

use crate::block::Block;
use crate::distributions::{
    answers, selects, table_of, Distribution, ProbabilityDensityFunction, UNIT,
};
use crate::lt::combine::agrees;
use crate::lt::packet::{LtPacket, PacketView};
use crate::lt::peeling::{
    encodes, faithful, lemma_receive_monotonic, peeled, stalled, well_formed, DecoderView,
};
use crate::lt::pool::{views, StalePool};
use crate::lt::scan::{peel, reduce_block, state_of};
use crate::lt::select::{choose_blocks_to_combine, combined_count};
use crate::lt::source::{chunk, source_blocks};
use crate::metadata::{block_count, Metadata};
use crate::{Client, CreationError, Decoder, PartialEncoder, Progress};
use rand::StdRng;
use std::collections::HashMap;
use vstd::prelude::*;
use vstd::std_specs::hash::spec_keys_iter;
use vstd::std_specs::iter::IteratorSpec;

verus! {

/// The first `count` blocks of `decoded`, one behind the other.
pub open spec fn assembled(decoded: Map<u32, Seq<u8>>, count: int) -> Seq<u8> {
    Seq::new((count * 1024) as nat, |i: int| decoded[(i / 1024) as u32][i % 1024])
}

/// Every block with an id below `count` is decoded.
pub open spec fn complete(decoded: Map<u32, Seq<u8>>, count: int) -> bool {
    forall|id: u32| id < count ==> decoded.dom().contains(id)
}

/// A complete set of blocks holds at least as many blocks as the blob has.
pub proof fn lemma_complete_len(decoded: Map<u32, Seq<u8>>, count: u32)
    requires
        decoded.dom().finite(),
        complete(decoded, count as int),
    ensures
        decoded.dom().len() >= count,
{
    let ids = Set::<u32>::range(0u32, count);
    vstd::set_lib::range_set_properties::<u32>(0u32, count);
    assert(ids.subset_of(decoded.dom()));
    vstd::set_lib::lemma_len_subset(ids, decoded.dom());
}

/// Where every block of a blob is decoded as the blob has it, the decoded
/// blocks, one behind the other and cut to the size of the blob, are the
/// blob.
pub proof fn lemma_result_is_source(data: Seq<u8>, decoded: Map<u32, Seq<u8>>)
    requires
        data.len() > 0,
        block_count(data.len() as int) <= u32::MAX,
        agrees(decoded, source_blocks(data)),
        complete(decoded, block_count(data.len() as int)),
    ensures
        data.len() <= block_count(data.len() as int) * 1024,
        assembled(decoded, block_count(data.len() as int)).take(data.len() as int) == data,
{
    let count = block_count(data.len() as int);
    let whole = assembled(decoded, count);
    assert forall|i: int| 0 <= i < data.len() implies whole[i] == data[i] by {
        assert(0 <= i / 1024 < count);
        let id = (i / 1024) as u32;
        assert(decoded.dom().contains(id));
        assert(decoded[id] == source_blocks(data)[id]);
        assert(chunk(data, id as int)[i % 1024] == data[i]);
    }
    assert(whole.take(data.len() as int) =~= data);
}

/// The decoder of one blob.
#[derive(Debug)]
pub struct LtClient {
    metadata: Metadata,
    block_count: u32,
    distribution: Distribution,
    decoded_blocks: HashMap<u32, Block>,
    stale_packets: StalePool,
}

impl View for LtClient {
    type V = DecoderView;

    closed spec fn view(&self) -> DecoderView {
        state_of(self.decoded_blocks@, self.stale_packets)
    }
}

impl LtClient {
    /// The invariant: the block count is that of the declared size, the
    /// sampler draws degrees up to it, and every packet held back names two
    /// unknown blocks or more.
    pub closed spec fn well_formed(&self) -> bool {
        &&& self.block_count >= 1
        &&& self.block_count == block_count(self.metadata.data_bytes() as int)
        &&& self.distribution.well_formed()
        &&& self.distribution.limit() == self.block_count
        &&& self.stale_packets.wf(self.decoded_blocks@.dom())
        &&& forall|held: PacketView| #[trigger]
            self.stale_packets@.contains(held) ==> stalled(self.decoded_blocks@.dom(), held)
    }

    /// The number of blocks of the blob, in ghost code.
    pub closed spec fn spec_block_count(&self) -> u32 {
        self.block_count
    }

    /// The number of blocks of the blob.
    #[verifier::when_used_as_spec(spec_block_count)]
    pub fn block_count(&self) -> (count: u32)
        ensures
            count == self.block_count(),
    {
        self.block_count
    }

    /// The cumulative table of the sampler that degrees are drawn from: the
    /// entry at `i` belongs to degree `i + 1`.
    pub closed spec fn table(&self) -> Seq<u64> {
        self.distribution.table()
    }

    /// The declared size of the blob, in ghost code.
    pub closed spec fn spec_metadata(&self) -> Metadata {
        self.metadata
    }

    /// The declared size of the blob.
    #[verifier::when_used_as_spec(spec_metadata)]
    pub fn metadata(&self) -> (metadata: Metadata)
        ensures
            metadata == self.metadata(),
    {
        self.metadata
    }

    /// The decoded block with the given id, where there is one.
    pub fn decoded_block(&self, id: u32) -> (result: Option<Block>)
        ensures
            match result {
                Some(block) => self@.decoded.dom().contains(id) && block@ == self@.decoded[id],
                None => !self@.decoded.dom().contains(id),
            },
    {
        assert(self@.decoded.dom() =~= self.decoded_blocks@.dom());
        match self.decoded_blocks.get(&id) {
            Some(block) => Some(block.clone()),
            None => None,
        }
    }

    /// The packets that the decoder holds back, each once.
    pub fn stale_packets(&self) -> (held: Vec<LtPacket>)
        requires
            self.well_formed(),
        ensures
            views(held@).to_set() == self@.stale,
            views(held@).no_duplicates(),
            self@.stale.finite(),
            held@.len() == self@.stale.len(),
    {
        let held = self.stale_packets.packets(Ghost(self.decoded_blocks@.dom()));
        proof {
            views(held@).unique_seq_to_set();
            vstd::seq_lib::seq_to_set_is_finite(views(held@));
        }
        held
    }

    /// A well-formed decoder is in a well-formed state, its block count is
    /// that of the declared size, and its sampler has a degree for each
    /// block.
    pub proof fn lemma_well_formed(&self)
        requires
            self.well_formed(),
        ensures
            well_formed(self@),
            self.block_count() >= 1,
            self.block_count() == block_count(self.metadata().data_bytes() as int),
            self.table().len() == self.block_count(),
    {
        assert(self@.decoded.dom() =~= self.decoded_blocks@.dom());
        self.distribution.lemma_table_len();
    }

    /// The number of blocks of a blob of the declared size: `DataZeroBytes`
    /// for the empty blob, `DataTooBig` for more than `u32::MAX` blocks.
    fn count_blocks(metadata: Metadata) -> (result: Result<u32, CreationError>)
        ensures
            match result {
                Ok(count) => metadata.data_bytes() != 0 && count >= 1 && count == block_count(
                    metadata.data_bytes() as int,
                ),
                Err(CreationError::DataZeroBytes) => metadata.data_bytes() == 0,
                Err(CreationError::DataTooBig) => metadata.data_bytes() != 0 && block_count(
                    metadata.data_bytes() as int,
                ) > u32::MAX,
                Err(_) => false,
            },
    {
        if metadata.data_bytes() == 0 {
            return Err(CreationError::DataZeroBytes);
        }
        let count = metadata.data_blocks();
        if count > u32::MAX as u64 {
            return Err(CreationError::DataTooBig);
        }
        Ok(count as u32)
    }

    /// The decoder that has `count` blocks to decode and has seen no packet.
    fn assemble(metadata: Metadata, count: u32, distribution: Distribution) -> (client: LtClient)
        requires
            count >= 1,
            count == block_count(metadata.data_bytes() as int),
            distribution.well_formed(),
            distribution.limit() == count,
        ensures
            client.well_formed(),
            client.metadata() == metadata,
            client.block_count() == count,
            client.table() == distribution.table(),
            client@.decoded == Map::<u32, Seq<u8>>::empty(),
            client@.stale == Set::<PacketView>::empty(),
    {
        let client = LtClient {
            metadata,
            block_count: count,
            distribution,
            decoded_blocks: HashMap::new(),
            stale_packets: StalePool::new(),
        };
        assert(client@.decoded =~= Map::<u32, Seq<u8>>::empty());
        client
    }

    /// The decoder of a blob of the declared size that draws from `rng`:
    /// `DataZeroBytes` for the empty blob, `DataTooBig` where the blob has
    /// more than `u32::MAX` blocks.
    pub fn with_rng<D: ProbabilityDensityFunction>(
        metadata: Metadata,
        density_function: &D,
        rng: StdRng,
    ) -> (result: Result<LtClient, CreationError>)
        ensures
            match result {
                Ok(client) => {
                    &&& metadata.data_bytes() != 0
                    &&& block_count(metadata.data_bytes() as int) <= u32::MAX
                    &&& client.well_formed()
                    &&& client.metadata() == metadata
                    &&& client.block_count() == block_count(metadata.data_bytes() as int)
                    &&& client@.decoded == Map::<u32, Seq<u8>>::empty()
                    &&& client@.stale == Set::<PacketView>::empty()
                    &&& exists|weights: Seq<u64>|
                        answers(
                            density_function,
                            block_count(metadata.data_bytes() as int) as u32,
                            weights,
                        ) && client.table() == table_of(weights)
                },
                Err(CreationError::DataZeroBytes) => metadata.data_bytes() == 0,
                Err(CreationError::DataTooBig) => metadata.data_bytes() != 0 && block_count(
                    metadata.data_bytes() as int,
                ) > u32::MAX,
                Err(_) => false,
            },
    {
        match LtClient::count_blocks(metadata) {
            Ok(count) => {
                let distribution = Distribution::with_rng(density_function, count, rng);
                Ok(LtClient::assemble(metadata, count, distribution))
            },
            Err(error) => Err(error),
        }
    }
}

impl Decoder<LtPacket> for LtClient {
    open spec fn can_decode(&self) -> bool {
        self.well_formed()
    }

    /// Takes `packet` in and peels as far as it goes.
    ///
    /// The new state is the one that peeling reaches from the old. No block
    /// is lost, so progress never falls. Where the old state and the packet
    /// come from one blob, so does the new state.
    fn receive_packet(&mut self, packet: LtPacket)
        ensures
            final(self).metadata() == old(self).metadata(),
            final(self).block_count() == old(self).block_count(),
            final(self).table() == old(self).table(),
            peeled(old(self)@, packet@, final(self)@),
            old(self)@.decoded.dom().len() <= final(self)@.decoded.dom().len(),
            forall|source: Map<u32, Seq<u8>>|
                faithful(source, old(self)@) && encodes(source, packet@) ==> #[trigger] faithful(
                    source,
                    final(self)@,
                ),
    {
        peel(&mut self.decoded_blocks, &mut self.stale_packets, packet);
        proof {
            assert(self@.decoded.dom() =~= self.decoded_blocks@.dom());
            lemma_receive_monotonic(old(self)@, packet@, self@);
        }
    }

    /// The number of decoded blocks, and the number of blocks of the blob.
    fn decoding_progress(&self) -> (progress: Progress)
        ensures
            progress.decoded_blocks == self@.decoded.dom().len(),
            progress.block_count == self.block_count(),
    {
        assert(self@.decoded.dom() =~= self.decoded_blocks@.dom());
        Progress { decoded_blocks: self.decoded_blocks.len(), block_count: self.block_count }
    }

    /// The blob, exactly where every block of it is decoded: the decoded
    /// blocks in the order of their ids, cut to the declared size.
    fn get_result(&self) -> (result: Option<Vec<u8>>)
        ensures
            match result {
                Some(bytes) => {
                    &&& complete(self@.decoded, self.block_count() as int)
                    &&& bytes@ == assembled(self@.decoded, self.block_count() as int).take(
                        self.metadata().data_bytes() as int,
                    )
                },
                None => !complete(self@.decoded, self.block_count() as int),
            },
    {
        let ghost decoded = self@.decoded;
        proof {
            assert(decoded.dom() =~= self.decoded_blocks@.dom());
            if complete(decoded, self.block_count as int) {
                lemma_complete_len(decoded, self.block_count);
            }
        }
        if self.decoded_blocks.len() < self.block_count as usize {
            return None;
        }
        let mut block_bytes: Vec<u8> = Vec::new();
        let mut i: u32 = 0;
        while i < self.block_count
            invariant
                i <= self.block_count,
                decoded == self@.decoded,
                decoded.dom() == self.decoded_blocks@.dom(),
                forall|id: u32| id < i ==> decoded.dom().contains(id),
                block_bytes@ == assembled(decoded, i as int),
            decreases self.block_count - i,
        {
            match self.decoded_blocks.get(&i) {
                Some(block) => {
                    let ghost before = block_bytes@;
                    block_bytes.extend_from_slice(block.data());
                    proof {
                        assert(decoded[i] == block@);
                        assert(block_bytes@ =~= before + block@);
                        assert(block_bytes@ =~= assembled(decoded, i + 1));
                    }
                },
                None => {
                    return None;
                },
            }
            i += 1;
        }
        let data_bytes = self.metadata.data_bytes();
        assert(data_bytes <= block_bytes@.len());
        block_bytes.truncate(data_bytes as usize);
        Some(block_bytes)
    }
}

impl LtClient {
    /// The ids of the decoded blocks, each once.
    fn decoded_ids(&self) -> (ids: Vec<u32>)
        ensures
            ids@.no_duplicates(),
            ids@.to_set() == self@.decoded.dom(),
            ids@.len() == self@.decoded.dom().len(),
    {
        let mut ids: Vec<u32> = Vec::new();
        let ghost all = spec_keys_iter(&self.decoded_blocks).remaining();
        for key in iter: self.decoded_blocks.keys()
            invariant
                all == spec_keys_iter(&self.decoded_blocks).remaining(),
                iter.seq() == all,
                ids@ == all.take(iter.index() as int).unref(),
        {
            ids.push(*key);
        }
        assert(ids@ =~= all.unref());
        assert(self@.decoded.dom() =~= self.decoded_blocks@.dom());
        proof {
            ids@.unique_seq_to_set();
        }
        ids
    }
}

impl PartialEncoder<LtPacket> for LtClient {
    open spec fn can_relay(&self) -> bool {
        self.well_formed()
    }

    /// A packet made of decoded blocks, where there are any: a degree is
    /// drawn, that many distinct decoded blocks are drawn, all of them where
    /// the degree exceeds their number, and the packet combines them.
    /// The degree is the one that some draw below `UNIT` selects from the
    /// table.
    fn try_create_packet(&mut self) -> (result: Option<LtPacket>)
        ensures
            final(self)@ == old(self)@,
            final(self).metadata() == old(self).metadata(),
            final(self).block_count() == old(self).block_count(),
            final(self).table() == old(self).table(),
            match result {
                Some(packet) => {
                    &&& packet@.ids.len() >= 1
                    &&& packet@.ids.no_duplicates()
                    &&& encodes(old(self)@.decoded, packet@)
                    &&& exists|selector: u64, degree: int|
                        selector < UNIT && #[trigger] selects(
                            old(self).table(),
                            selector,
                            degree,
                        ) && packet@.ids.len() == combined_count(
                            old(self)@.decoded.dom().len() as int,
                            degree,
                        )
                },
                None => old(self)@.decoded.dom().is_empty(),
            },
    {
        let mut blocks = self.decoded_ids();
        let ghost all = blocks@;
        if blocks.len() == 0 {
            assert(all.to_set() =~= Set::<u32>::empty());
            return None;
        }
        choose_blocks_to_combine(&mut self.distribution, &mut blocks);
        proof {
            let (selector, degree) = choose|selector: u64, degree: int|
                selector < UNIT && #[trigger] selects(old(self).table(), selector, degree)
                    && blocks@.len() == combined_count(all.len() as int, degree);
            assert(selects(old(self).table(), selector, degree) && blocks@.len()
                == combined_count(old(self)@.decoded.dom().len() as int, degree));
            assert forall|i: int| 0 <= i < blocks@.len() implies self.decoded_blocks@.dom().contains(
                #[trigger] blocks@[i],
            ) by {
                assert(all.contains(blocks@[i]));
                assert(all.to_set().contains(blocks@[i]));
                assert(old(self)@.decoded.dom() =~= self.decoded_blocks@.dom());
            }
        }
        let new_block = reduce_block(&self.decoded_blocks, Block::new(), &blocks);
        Some(LtPacket::new(blocks, new_block))
    }
}

impl Client<LtPacket> for LtClient {
    /// The decoder of a blob of the declared size, with a freshly seeded
    /// generator: `DataZeroBytes` for the empty blob, `DataTooBig` where the
    /// blob has more than `u32::MAX` blocks. Where neither holds, it fails
    /// only where seeding does.
    fn new<D: ProbabilityDensityFunction>(metadata: Metadata, density_function: &D) -> (result:
        Result<LtClient, CreationError>)
        ensures
            match result {
                Ok(client) => {
                    &&& metadata.data_bytes() != 0
                    &&& block_count(metadata.data_bytes() as int) <= u32::MAX
                    &&& client.well_formed()
                    &&& client.metadata() == metadata
                    &&& client.block_count() == block_count(metadata.data_bytes() as int)
                    &&& client@.decoded == Map::<u32, Seq<u8>>::empty()
                    &&& client@.stale == Set::<PacketView>::empty()
                    &&& exists|weights: Seq<u64>|
                        answers(
                            density_function,
                            block_count(metadata.data_bytes() as int) as u32,
                            weights,
                        ) && client.table() == table_of(weights)
                },
                Err(CreationError::DataZeroBytes) => metadata.data_bytes() == 0,
                Err(CreationError::DataTooBig) => metadata.data_bytes() != 0 && block_count(
                    metadata.data_bytes() as int,
                ) > u32::MAX,
                Err(CreationError::InvalidMetadata) => false,
                Err(CreationError::RandomInitializationError(_)) => metadata.data_bytes() != 0
                    && block_count(metadata.data_bytes() as int) <= u32::MAX,
            },
    {
        match LtClient::count_blocks(metadata) {
            Ok(count) => {
                match Distribution::new(density_function, count) {
                    Ok(distribution) => Ok(LtClient::assemble(metadata, count, distribution)),
                    Err(error) => Err(CreationError::RandomInitializationError(error)),
                }
            },
            Err(error) => Err(error),
        }
    }
}

} // verus!
