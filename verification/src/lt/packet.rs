//! Packets and their wire format.
//!
//! A packet is encoded as the number of its block ids, the ids, and the bytes
//! of the combined block, every integer as four big-endian bytes.

use crate::block::{Block, BLOCK_BYTES};
use crate::codec::{be_bytes, be_value, lemma_be_round_trip, read_u32_be, write_u32_be};
use crate::{Packet, PacketError};
use vstd::prelude::*;
use vstd::slice::slice_subrange;

verus! {

/// What a packet holds: the ids of the source blocks that it combines, and
/// the combined block.
pub struct PacketView {
    pub ids: Seq<u32>,
    pub data: Seq<u8>,
}

/// The encoding of a list of block ids: four big-endian bytes for each.
pub open spec fn encode_ids(ids: Seq<u32>) -> Seq<u8> {
    Seq::new(4 * ids.len(), |j: int| be_bytes(ids[j / 4])[j % 4])
}

/// The encoding of a packet.
pub open spec fn encode(packet: PacketView) -> Seq<u8> {
    be_bytes(packet.ids.len() as u32) + encode_ids(packet.ids) + packet.data
}

/// The number of block ids that the first four bytes announce.
pub open spec fn announced_ids(bytes: Seq<u8>) -> int {
    be_value(bytes.subrange(0, 4))
}

/// Whether `bytes` is long enough to hold the packet that its first four
/// bytes announce.
pub open spec fn holds_packet(bytes: Seq<u8>) -> bool {
    bytes.len() >= 4 && bytes.len() >= 4 + 4 * announced_ids(bytes) + BLOCK_BYTES
}

/// The packet at the front of `bytes`, or `None` where `bytes` ends before it
/// does. Bytes behind the packet are not looked at.
pub open spec fn decode(bytes: Seq<u8>) -> Option<PacketView> {
    if holds_packet(bytes) {
        let n = announced_ids(bytes);
        Some(
            PacketView {
                ids: Seq::new(
                    n as nat,
                    |i: int| be_value(bytes.subrange(4 + 4 * i, 8 + 4 * i)) as u32,
                ),
                data: bytes.subrange(4 + 4 * n, 4 + 4 * n + BLOCK_BYTES),
            },
        )
    } else {
        None
    }
}

/// A packet whose id count fits the count field and whose block has the
/// fixed width is read back from its encoding unchanged.
pub proof fn lemma_packet_round_trip(packet: PacketView)
    requires
        packet.ids.len() <= u32::MAX,
        packet.data.len() == BLOCK_BYTES,
    ensures
        decode(encode(packet)) == Some(packet),
{
    let bytes = encode(packet);
    let n = packet.ids.len() as u32;
    lemma_be_round_trip(n);
    assert(bytes.subrange(0, 4) =~= be_bytes(n));
    assert(announced_ids(bytes) == n);
    let decoded = decode(bytes)->Some_0;
    assert forall|i: int| 0 <= i < n implies decoded.ids[i] == packet.ids[i] by {
        lemma_be_round_trip(packet.ids[i]);
        assert(bytes.subrange(4 + 4 * i, 8 + 4 * i) =~= be_bytes(packet.ids[i]));
    }
    assert(decoded.ids =~= packet.ids);
    assert(decoded.data =~= packet.data);
}

/// One packet of the code: a list of block ids and the exclusive-or of the
/// blocks they name.
#[derive(Debug, Hash)]
pub struct LtPacket {
    combined_blocks: Vec<u32>,
    data: Block,
}

impl View for LtPacket {
    type V = PacketView;

    closed spec fn view(&self) -> PacketView {
        PacketView { ids: self.combined_blocks@, data: self.data@ }
    }
}

impl LtPacket {
    /// The packet that combines the blocks named by `combined_blocks` into
    /// `data`.
    pub fn new(combined_blocks: Vec<u32>, data: Block) -> (packet: LtPacket)
        ensures
            packet@ == (PacketView { ids: combined_blocks@, data: data@ }),
    {
        LtPacket { combined_blocks, data }
    }

    /// The ids of the blocks that the packet combines.
    pub fn combined_blocks(&self) -> (ids: &Vec<u32>)
        ensures
            ids@ == self@.ids,
    {
        &self.combined_blocks
    }

    /// The combined block.
    pub fn data(&self) -> (block: &Block)
        ensures
            block@ == self@.data,
    {
        &self.data
    }

    /// The ids and the combined block, each by value.
    pub fn into_parts(self) -> (parts: (Vec<u32>, Block))
        ensures
            parts.0@ == self@.ids,
            parts.1@ == self@.data,
    {
        (self.combined_blocks, self.data)
    }

    /// The block of a packet has the fixed width.
    pub proof fn lemma_data_len(&self)
        ensures
            self@.data.len() == BLOCK_BYTES,
    {
    }
}

impl Clone for LtPacket {
    fn clone(&self) -> (packet: LtPacket)
        ensures
            packet@ == self@,
    {
        LtPacket { combined_blocks: self.combined_blocks.clone(), data: self.data.clone() }
    }
}

impl PartialEq for LtPacket {
    fn eq(&self, other: &LtPacket) -> (equal: bool) {
        let equal = self.combined_blocks == other.combined_blocks && self.data == other.data;
        proof {
            if equal {
                assert(self.combined_blocks@ =~= other.combined_blocks@);
            }
        }
        equal
    }
}

impl vstd::std_specs::cmp::PartialEqSpecImpl for LtPacket {
    open spec fn obeys_eq_spec() -> bool {
        true
    }

    open spec fn eq_spec(&self, other: &LtPacket) -> bool {
        self@ == other@
    }
}

impl Eq for LtPacket {

}

impl Packet for LtPacket {
    /// Reads a packet from the front of `bytes`: `Truncated` exactly where the
    /// bytes end before the announced packet does.
    fn from_bytes(bytes: Vec<u8>) -> (result: Result<LtPacket, PacketError>)
        ensures
            match result {
                Ok(packet) => decode(bytes@) == Some(packet@),
                Err(error) => decode(bytes@) is None && error == PacketError::Truncated,
            },
    {
        let len = bytes.len();
        if len < 4 {
            return Err(PacketError::Truncated);
        }
        let count = read_u32_be(slice_subrange(bytes.as_slice(), 0, 4));
        let needed: u64 = 4 + 4 * (count as u64) + BLOCK_BYTES as u64;
        if (len as u64) < needed {
            return Err(PacketError::Truncated);
        }
        let ghost wanted = decode(bytes@)->Some_0;
        let mut combined_blocks: Vec<u32> = Vec::new();
        let mut at: usize = 4;
        let mut i: u32 = 0;
        while i < count
            invariant
                i <= count,
                at == 4 + 4 * i,
                len == bytes@.len(),
                4 + 4 * count + BLOCK_BYTES <= len,
                count == announced_ids(bytes@),
                wanted == decode(bytes@)->Some_0,
                holds_packet(bytes@),
                combined_blocks@.len() == i,
                forall|k: int| 0 <= k < i ==> combined_blocks@[k] == wanted.ids[k],
            decreases count - i,
        {
            let id = read_u32_be(slice_subrange(bytes.as_slice(), at, at + 4));
            assert(bytes@.subrange(at as int, at + 4).subrange(0, 4) =~= bytes@.subrange(
                4 + 4 * i,
                8 + 4 * i,
            ));
            combined_blocks.push(id);
            at += 4;
            i += 1;
        }
        let mut block = Block::new();
        let mut j: usize = 0;
        while j < BLOCK_BYTES
            invariant
                j <= BLOCK_BYTES,
                at == 4 + 4 * count,
                len == bytes@.len(),
                at + BLOCK_BYTES <= len,
                forall|k: int| 0 <= k < j ==> block.data@[k] == bytes@[at + k],
            decreases BLOCK_BYTES - j,
        {
            block.data[j] = bytes[at + j];
            j += 1;
        }
        assert(combined_blocks@ =~= wanted.ids);
        assert(block@ =~= wanted.data);
        Ok(LtPacket { combined_blocks, data: block })
    }

    /// The encoding of the packet: `TooManyBlocks` exactly where the number
    /// of ids does not fit the count field.
    fn to_bytes(&self) -> (result: Result<Vec<u8>, PacketError>)
        ensures
            match result {
                Ok(bytes) => self@.ids.len() <= u32::MAX && bytes@ == encode(self@),
                Err(error) => self@.ids.len() > u32::MAX && error == PacketError::TooManyBlocks,
            },
    {
        let count = self.combined_blocks.len();
        if count > u32::MAX as usize {
            return Err(PacketError::TooManyBlocks);
        }
        let mut dest: Vec<u8> = Vec::new();
        let header = write_u32_be(count as u32);
        dest.extend_from_slice(header.as_slice());
        assert(dest@ =~= be_bytes(count as u32));
        let mut i: usize = 0;
        while i < count
            invariant
                i <= count,
                count == self.combined_blocks@.len(),
                count <= u32::MAX,
                dest@ == be_bytes(count as u32) + encode_ids(self.combined_blocks@.take(i as int)),
            decreases count - i,
        {
            let word = write_u32_be(self.combined_blocks[i]);
            let ghost before = dest@;
            dest.extend_from_slice(word.as_slice());
            assert(dest@ =~= before + be_bytes(self.combined_blocks@[i as int]));
            assert(encode_ids(self.combined_blocks@.take(i + 1)) =~= encode_ids(
                self.combined_blocks@.take(i as int),
            ) + be_bytes(self.combined_blocks@[i as int]));
            i += 1;
        }
        assert(self.combined_blocks@.take(count as int) =~= self.combined_blocks@);
        let ghost before = dest@;
        dest.extend_from_slice(self.data.data());
        assert(dest@ =~= before + self.data@);
        Ok(dest)
    }
}

} // verus!
