//! The Luby-Transform code: packets, the encoder and the peeling decoder.

pub mod client;
pub mod combine;
pub mod packet;
pub mod peeling;
pub mod pool;
pub mod scan;
pub mod select;
pub mod source;

pub use crate::block::{Block, BLOCK_BYTES};
pub use packet::{LtPacket, PacketView};
pub use source::LtSource;
pub use client::LtClient;
