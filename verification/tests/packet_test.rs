use fountain_codes::lt::{Block, LtPacket, BLOCK_BYTES};
use fountain_codes::{Packet, PacketError};

#[test]
fn block_equals() {
    assert_eq!(Block::new() ^ &Block::new(), Block::new());

    let one_block = Block::from_data([1; BLOCK_BYTES]);

    assert_eq!(one_block.clone() ^ &Block::new(), one_block);
}

#[test]
fn packet_round_trips() {
    let combined_blocks = vec![1, 2, 3, 4, 5];
    let block_data = [0; BLOCK_BYTES];
    let packet = LtPacket::new(combined_blocks.clone(), Block::from_data(block_data).clone());

    let bytes = packet.clone().to_bytes().unwrap();

    assert_eq!(LtPacket::from_bytes(bytes).unwrap(), packet);
}

#[test]
fn block_xor_with_itself_is_zero() {
    let mut data = [0u8; BLOCK_BYTES];
    for i in 0..BLOCK_BYTES {
        data[i] = (i * 7 + 3) as u8;
    }
    let block = Block::from_data(data);
    assert_eq!(block.clone() ^ &block, Block::new());
    assert_eq!(Block::new() ^ &block, block);

    let mut assigned = block.clone();
    assigned ^= &block;
    assert_eq!(assigned, Block::new());
}

#[test]
fn block_xor_is_bytewise() {
    let left = Block::from_data([0b1100_1010; BLOCK_BYTES]);
    let right = Block::from_data([0b1010_0110; BLOCK_BYTES]);
    let both = left ^ &right;
    assert_eq!(both.data().len(), BLOCK_BYTES);
    assert!(both.data().iter().all(|byte| *byte == 0b0110_1100));
    assert_ne!(both, right);
}

#[test]
fn packet_bytes_are_big_endian() {
    let mut data = [0u8; BLOCK_BYTES];
    data[0] = 0xaa;
    data[BLOCK_BYTES - 1] = 0xbb;
    let packet = LtPacket::new(vec![0x0102_0304, 7], Block::from_data(data));

    let bytes = packet.to_bytes().unwrap();

    assert_eq!(bytes.len(), 4 + 4 * 2 + BLOCK_BYTES);
    assert_eq!(&bytes[0..4], &[0, 0, 0, 2]);
    assert_eq!(&bytes[4..8], &[1, 2, 3, 4]);
    assert_eq!(&bytes[8..12], &[0, 0, 0, 7]);
    assert_eq!(bytes[12], 0xaa);
    assert_eq!(bytes[12 + BLOCK_BYTES - 1], 0xbb);
}

#[test]
fn packet_reads_big_endian_ids() {
    let mut bytes = vec![0, 0, 0, 1, 0x12, 0x34, 0x56, 0x78];
    bytes.extend_from_slice(&[9u8; BLOCK_BYTES]);

    let packet = LtPacket::from_bytes(bytes).unwrap();

    assert_eq!(packet.combined_blocks(), &vec![0x1234_5678u32]);
    assert_eq!(packet.data(), &Block::from_data([9u8; BLOCK_BYTES]));
}

#[test]
fn packet_without_ids_round_trips() {
    let packet = LtPacket::new(Vec::new(), Block::from_data([5; BLOCK_BYTES]));
    let bytes = packet.to_bytes().unwrap();
    assert_eq!(bytes.len(), 4 + BLOCK_BYTES);
    assert_eq!(LtPacket::from_bytes(bytes).unwrap(), packet);
}

#[test]
fn truncated_packets_are_refused() {
    let packet = LtPacket::new(vec![1, 2, 3], Block::new());
    let bytes = packet.to_bytes().unwrap();

    assert_eq!(LtPacket::from_bytes(Vec::new()), Err(PacketError::Truncated));
    assert_eq!(LtPacket::from_bytes(vec![0, 0, 0]), Err(PacketError::Truncated));
    assert_eq!(LtPacket::from_bytes(bytes[..4].to_vec()), Err(PacketError::Truncated));
    assert_eq!(
        LtPacket::from_bytes(bytes[..bytes.len() - 1].to_vec()),
        Err(PacketError::Truncated)
    );
    assert_eq!(
        LtPacket::from_bytes(vec![0xff, 0xff, 0xff, 0xff, 1, 2, 3]),
        Err(PacketError::Truncated)
    );
}

#[test]
fn bytes_behind_a_packet_are_ignored() {
    let packet = LtPacket::new(vec![4, 2], Block::from_data([3; BLOCK_BYTES]));
    let mut bytes = packet.to_bytes().unwrap();
    bytes.extend_from_slice(&[1, 2, 3]);
    assert_eq!(LtPacket::from_bytes(bytes).unwrap(), packet);
}

#[test]
fn packets_differ_by_ids_and_by_block() {
    let packet = LtPacket::new(vec![1, 2], Block::new());
    assert_ne!(packet, LtPacket::new(vec![2, 1], Block::new()));
    assert_ne!(packet, LtPacket::new(vec![1, 2], Block::from_data([1; BLOCK_BYTES])));
    assert_eq!(packet, packet.clone());
}
