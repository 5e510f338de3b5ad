//! A rateless erasure code of the Luby-Transform family: an encoder that turns
//! a blob of bytes into an unbounded stream of packets, and a peeling decoder
//! that rebuilds the blob from any sufficient set of them.

use vstd::prelude::*;

pub mod block;
pub mod codec;
pub mod data;
pub mod distributions;
pub mod lt;
pub mod metadata;

pub use distributions::ProbabilityDensityFunction;
pub use lt::{LtClient, LtSource};
pub use metadata::Metadata;

verus! {

/// Why a byte string is not the encoding of a packet, or a packet has none.
#[derive(Debug, Clone, Copy, PartialEq, Eq, Structural)]
pub enum PacketError {
    /// The byte string ends before the packet does.
    Truncated,
    /// The packet lists more block ids than the 32-bit count field can hold.
    TooManyBlocks,
}

/// Why an encoder or a decoder cannot be made.
#[derive(Debug)]
pub enum CreationError {
    /// The blob is empty.
    DataZeroBytes,
    /// The blob has more blocks than a 32-bit id can name.
    DataTooBig,
    /// The blob does not have the size that the metadata declares.
    InvalidMetadata,
    /// The random number generator could not be seeded.
    RandomInitializationError(std::io::Error),
}

/// How far a decoder has come: the number of blocks it has decoded, out of
/// the number of blocks of the blob.
#[derive(Debug, Clone, Copy, PartialEq, Eq, Structural)]
pub struct Progress {
    pub decoded_blocks: usize,
    pub block_count: u32,
}

/// A value with an encoding as a byte string.
pub trait Packet: Sized {
    /// Reads a packet from the front of `bytes`.
    fn from_bytes(bytes: Vec<u8>) -> Result<Self, PacketError>;

    /// The encoding of the packet.
    fn to_bytes(&self) -> Result<Vec<u8>, PacketError>;
}

/// A producer of packets.
pub trait Encoder<P: Packet> {
    /// The invariant that the encoder keeps.
    spec fn can_encode(&self) -> bool;

    /// A new packet.
    fn create_packet(&mut self) -> (packet: P)
        requires
            old(self).can_encode(),
        ensures
            final(self).can_encode(),
    ;
}

/// A producer of packets that may have none to give.
pub trait PartialEncoder<P: Packet> {
    /// The invariant that the encoder keeps.
    spec fn can_relay(&self) -> bool;

    /// A new packet, where the encoder has anything to make one of.
    fn try_create_packet(&mut self) -> (packet: Option<P>)
        requires
            old(self).can_relay(),
        ensures
            final(self).can_relay(),
    ;
}

/// A consumer of packets that rebuilds the blob they were made of.
pub trait Decoder<P: Packet> {
    /// The invariant that the decoder keeps.
    spec fn can_decode(&self) -> bool;

    /// Takes a packet in.
    fn receive_packet(&mut self, packet: P)
        requires
            old(self).can_decode(),
        ensures
            final(self).can_decode(),
    ;

    /// How much of the blob is decoded.
    fn decoding_progress(&self) -> (progress: Progress)
        requires
            self.can_decode(),
    ;

    /// The blob, once all of it is decoded.
    fn get_result(&self) -> (result: Option<Vec<u8>>)
        requires
            self.can_decode(),
    ;
}

/// An encoder that is made from a blob.
pub trait Source<P: Packet>: Encoder<P> + Sized {
    /// The encoder of `data`, which has the size that `metadata` declares,
    /// drawing degrees with the probabilities of `density_function`.
    fn new<D: ProbabilityDensityFunction>(
        metadata: Metadata,
        data: Vec<u8>,
        density_function: &D,
    ) -> (result: Result<Self, CreationError>)
        ensures
            result matches Ok(source) ==> source.can_encode(),
    ;
}

/// A decoder that can pass on what it has decoded.
pub trait Client<P: Packet>: Decoder<P> + PartialEncoder<P> + Sized {
    /// The decoder of a blob of the size that `metadata` declares, drawing
    /// degrees with the probabilities of `density_function`.
    fn new<D: ProbabilityDensityFunction>(metadata: Metadata, density_function: &D) -> (result:
        Result<Self, CreationError>)
        ensures
            result matches Ok(client) ==> client.can_decode() && client.can_relay(),
    ;
}

} // verus!
