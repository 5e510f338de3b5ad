use fountain_codes::distributions::{IdealSolitonDistribution, ProbabilityDensityFunction, UNIT};
use fountain_codes::lt::{Block, LtClient, LtPacket, LtSource, BLOCK_BYTES};
use fountain_codes::{
    Client, CreationError, Decoder, Encoder, Metadata, Packet, PartialEncoder, Progress, Source,
};
use rand::{SeedableRng, StdRng};

fn rng(seed: usize) -> StdRng {
    let seed: &[usize] = &[seed, 11, 12, 13];
    StdRng::from_seed(seed)
}

fn patterned(byte_count: usize) -> Vec<u8> {
    (0..byte_count).map(|i| (i * 13 + i / 1024 * 5 + 2) as u8).collect()
}

fn chunk(data: &[u8], index: usize) -> [u8; BLOCK_BYTES] {
    let mut block = [0u8; BLOCK_BYTES];
    for j in 0..BLOCK_BYTES {
        if index * BLOCK_BYTES + j < data.len() {
            block[j] = data[index * BLOCK_BYTES + j];
        }
    }
    block
}

fn packet_of(data: &[u8], ids: &[u32]) -> LtPacket {
    let mut block = [0u8; BLOCK_BYTES];
    for id in ids {
        let other = chunk(data, *id as usize);
        for j in 0..BLOCK_BYTES {
            block[j] ^= other[j];
        }
    }
    LtPacket::new(ids.to_vec(), Block::from_data(block))
}

fn client_for(byte_count: usize, seed: usize) -> LtClient {
    LtClient::with_rng(Metadata::new(byte_count as u64), &IdealSolitonDistribution, rng(seed)).unwrap()
}

fn progress(decoded_blocks: usize, block_count: u32) -> Progress {
    Progress { decoded_blocks, block_count }
}

/// Every degree up to the limit is as likely as any other.
struct Flat;

impl ProbabilityDensityFunction for Flat {
    fn density(&self, _point: u32, limit: u32) -> u64 {
        UNIT / (limit as u64) + 1
    }
}

/// Only the given degree is ever drawn.
struct Only(u32);

impl ProbabilityDensityFunction for Only {
    fn density(&self, point: u32, _limit: u32) -> u64 {
        if point == self.0 {
            UNIT
        } else {
            0
        }
    }
}

#[test]
fn relayed_packets_have_the_drawn_degree_cut_to_what_is_decoded() {
    let data = patterned(6 * 1024);
    let metadata = Metadata::new(data.len() as u64);
    let mut client = LtClient::with_rng(metadata, &Only(3), rng(18)).unwrap();
    let mut decoded = 0;
    for id in [4u32, 1, 5, 0, 2] {
        client.receive_packet(packet_of(&data, &[id]));
        decoded += 1;
        for _ in 0..50 {
            let packet = client.try_create_packet().unwrap();
            assert_eq!(packet.combined_blocks().len(), std::cmp::min(decoded, 3));
            assert_eq!(packet, packet_of(&data, packet.combined_blocks()));
        }
    }
}

#[test]
fn empty_blob_has_no_decoder() {
    let result = LtClient::new(Metadata::new(0), &IdealSolitonDistribution);
    assert!(matches!(result, Err(CreationError::DataZeroBytes)));
    let seeded = LtClient::with_rng(Metadata::new(0), &IdealSolitonDistribution, rng(1));
    assert!(matches!(seeded, Err(CreationError::DataZeroBytes)));
}

#[test]
fn blob_with_too_many_blocks_has_no_decoder() {
    let result = LtClient::new(Metadata::new(u64::MAX), &IdealSolitonDistribution);
    assert!(matches!(result, Err(CreationError::DataTooBig)));
    let least = (u32::MAX as u64) * 1024 + 1;
    let seeded = LtClient::with_rng(Metadata::new(least), &IdealSolitonDistribution, rng(1));
    assert!(matches!(seeded, Err(CreationError::DataTooBig)));
}

#[test]
fn fresh_decoder_has_nothing() {
    let mut client = client_for(3000, 1);
    assert_eq!(client.block_count(), 3);
    assert_eq!(client.metadata().data_bytes(), 3000);
    assert_eq!(client.decoding_progress(), progress(0, 3));
    assert_eq!(client.get_result(), None);
    assert!(client.stale_packets().is_empty());
    assert_eq!(client.decoded_block(0), None);
    assert!(client.try_create_packet().is_none());
}

#[test]
fn cascade_peeling() {
    let data = patterned(3 * 1024);
    let mut client = client_for(data.len(), 2);

    client.receive_packet(packet_of(&data, &[0, 1]));
    assert_eq!(client.decoding_progress(), progress(0, 3));
    assert_eq!(client.stale_packets(), vec![packet_of(&data, &[0, 1])]);

    client.receive_packet(packet_of(&data, &[1, 2]));
    assert_eq!(client.decoding_progress(), progress(0, 3));
    assert_eq!(client.stale_packets().len(), 2);
    assert_eq!(client.get_result(), None);

    client.receive_packet(packet_of(&data, &[0]));
    assert_eq!(client.decoding_progress(), progress(3, 3));
    assert!(client.stale_packets().is_empty());
    for id in 0..3 {
        assert_eq!(client.decoded_block(id), Some(Block::from_data(chunk(&data, id as usize))));
    }
    assert_eq!(client.decoded_block(3), None);
    assert_eq!(client.get_result(), Some(data));
}

#[test]
fn cascade_passes_over_packets_that_still_miss_two() {
    let data = patterned(5 * 1024 - 1);
    let mut client = client_for(data.len(), 3);

    client.receive_packet(packet_of(&data, &[0, 1, 2]));
    client.receive_packet(packet_of(&data, &[2, 3, 4]));
    client.receive_packet(packet_of(&data, &[1, 2]));
    client.receive_packet(packet_of(&data, &[0]));
    // Block 0 is decoded; no packet is down to one unknown block.
    assert_eq!(client.decoding_progress(), progress(1, 5));
    assert_eq!(client.stale_packets().len(), 3);

    client.receive_packet(packet_of(&data, &[1]));
    // Block 1 gives block 2 twice over; the packet of 2, 3 and 4 stays.
    assert_eq!(client.decoding_progress(), progress(3, 5));
    assert_eq!(client.stale_packets(), vec![packet_of(&data, &[2, 3, 4])]);
    assert_eq!(client.get_result(), None);

    client.receive_packet(packet_of(&data, &[4, 0]));
    assert_eq!(client.decoding_progress(), progress(5, 5));
    assert!(client.stale_packets().is_empty());
    assert_eq!(client.get_result(), Some(data));
}

#[test]
fn redundant_packets_are_dropped() {
    let data = patterned(2 * 1024);
    let mut client = client_for(data.len(), 4);
    client.receive_packet(packet_of(&data, &[0]));
    client.receive_packet(packet_of(&data, &[1]));
    assert_eq!(client.decoding_progress(), progress(2, 2));

    client.receive_packet(packet_of(&data, &[0, 1]));
    client.receive_packet(packet_of(&data, &[1]));
    client.receive_packet(LtPacket::new(Vec::new(), Block::new()));
    assert_eq!(client.decoding_progress(), progress(2, 2));
    assert!(client.stale_packets().is_empty());
    assert_eq!(client.get_result(), Some(data));
}

#[test]
fn duplicate_packets() {
    let data = patterned(4 * 1024);
    for ids in [vec![0u32], vec![1, 2], vec![0, 1, 2, 3]] {
        let mut once = client_for(data.len(), 5);
        once.receive_packet(packet_of(&data, &[3, 0]));
        once.receive_packet(packet_of(&data, &ids));

        let mut often = client_for(data.len(), 5);
        often.receive_packet(packet_of(&data, &[3, 0]));
        for _ in 0..10 {
            often.receive_packet(packet_of(&data, &ids));
        }

        assert_eq!(often.decoding_progress(), once.decoding_progress());
        assert_eq!(often.stale_packets(), once.stale_packets());
        for id in 0..4 {
            assert_eq!(often.decoded_block(id), once.decoded_block(id));
        }
        assert_eq!(often.get_result(), once.get_result());
    }
}

#[test]
fn a_packet_is_held_once() {
    let data = patterned(4 * 1024);
    let mut client = client_for(data.len(), 6);
    for _ in 0..10 {
        client.receive_packet(packet_of(&data, &[1, 2]));
    }
    assert_eq!(client.stale_packets(), vec![packet_of(&data, &[1, 2])]);

    let mut other = client_for(data.len(), 6);
    other.receive_packet(packet_of(&data, &[1]));
    // With block 1 decoded, a copy is looked for under block 2.
    for _ in 0..5 {
        other.receive_packet(packet_of(&data, &[1, 2, 3]));
        other.receive_packet(packet_of(&data, &[0, 2, 3]));
    }
    assert_eq!(other.decoding_progress(), progress(1, 4));
    assert_eq!(other.stale_packets().len(), 2);
    // The same ids with another block are another packet.
    other.receive_packet(LtPacket::new(vec![0, 2, 3], Block::new()));
    assert_eq!(other.stale_packets().len(), 3);

    other.receive_packet(packet_of(&data, &[2]));
    assert_eq!(other.decoding_progress(), progress(4, 4));
    assert!(other.stale_packets().is_empty());
    for id in 1..4 {
        assert_eq!(other.decoded_block(id), Some(Block::from_data(chunk(&data, id as usize))));
    }
}

#[test]
fn progress_never_falls() {
    let data = patterned(30 * 1024 + 1);
    let mut source = LtSource::with_rng(Metadata::new(data.len() as u64), data.clone(), &Flat, rng(7)).unwrap();
    let mut client = client_for(data.len(), 8);
    let mut last = 0;
    for _ in 0..2000 {
        client.receive_packet(source.create_packet());
        let now = client.decoding_progress();
        assert_eq!(now.block_count, 31);
        assert!(now.decoded_blocks >= last);
        assert!(now.decoded_blocks <= 31);
        last = now.decoded_blocks;
        assert_eq!(client.get_result().is_some(), last == 31);
    }
}

#[test]
fn result_is_the_blob_without_its_padding() {
    for byte_count in [1usize, 1023, 1024, 1025, 7 * 1024 + 512, 20 * 1024] {
        let data = patterned(byte_count);
        let metadata = Metadata::new(byte_count as u64);
        let mut source = LtSource::with_rng(metadata, data.clone(), &IdealSolitonDistribution, rng(9)).unwrap();
        let mut client = LtClient::with_rng(metadata, &IdealSolitonDistribution, rng(10)).unwrap();
        let mut result = None;
        for _ in 0..5000 {
            client.receive_packet(source.create_packet());
            result = client.get_result();
            if result.is_some() {
                break;
            }
        }
        assert_eq!(result, Some(data));
        assert!(client.stale_packets().is_empty());
    }
}

#[test]
fn packets_from_the_wire_decode() {
    let data = patterned(9 * 1024 + 9);
    let metadata = Metadata::new(data.len() as u64);
    let mut source = LtSource::with_rng(metadata, data.clone(), &IdealSolitonDistribution, rng(11)).unwrap();
    let mut client = LtClient::with_rng(metadata, &IdealSolitonDistribution, rng(12)).unwrap();
    for _ in 0..5000 {
        let bytes = source.create_packet().to_bytes().unwrap();
        client.receive_packet(LtPacket::from_bytes(bytes).unwrap());
        if client.get_result().is_some() {
            break;
        }
    }
    assert_eq!(client.get_result(), Some(data));
}

#[test]
fn order_of_packets_does_not_matter() {
    let data = patterned(12 * 1024);
    let metadata = Metadata::new(data.len() as u64);
    let mut source = LtSource::with_rng(metadata, data.clone(), &IdealSolitonDistribution, rng(13)).unwrap();
    let packets: Vec<LtPacket> = (0..14).map(|_| source.create_packet()).collect();

    let mut forward = client_for(data.len(), 14);
    for packet in packets.iter() {
        forward.receive_packet(packet.clone());
    }
    let mut backward = client_for(data.len(), 14);
    for packet in packets.iter().rev() {
        backward.receive_packet(packet.clone());
    }

    assert_eq!(forward.decoding_progress(), backward.decoding_progress());
    for id in 0..12 {
        assert_eq!(forward.decoded_block(id), backward.decoded_block(id));
    }
    let mut held_forward = forward.stale_packets();
    let mut held_backward = backward.stale_packets();
    held_forward.sort_by_key(|packet| packet.combined_blocks().clone());
    held_backward.sort_by_key(|packet| packet.combined_blocks().clone());
    assert_eq!(held_forward, held_backward);
}

#[test]
fn decoder_relays_what_it_has_decoded() {
    let data = patterned(8 * 1024 - 100);
    let metadata = Metadata::new(data.len() as u64);
    let mut first = LtClient::with_rng(metadata, &Flat, rng(15)).unwrap();
    assert!(first.try_create_packet().is_none());

    first.receive_packet(packet_of(&data, &[5]));
    for _ in 0..10 {
        let packet = first.try_create_packet().unwrap();
        assert_eq!(packet, packet_of(&data, &[5]));
    }
    first.receive_packet(packet_of(&data, &[2]));
    first.receive_packet(packet_of(&data, &[7, 2]));
    assert_eq!(first.decoding_progress(), progress(3, 8));
    for _ in 0..200 {
        let packet = first.try_create_packet().unwrap();
        let mut ids = packet.combined_blocks().clone();
        assert_eq!(packet, packet_of(&data, &ids));
        ids.sort();
        ids.dedup();
        assert_eq!(ids.len(), packet.combined_blocks().len());
        assert!(ids.iter().all(|id| [2, 5, 7].contains(id)));
    }
    assert_eq!(first.decoding_progress(), progress(3, 8));

    for id in [0, 1, 3, 4, 6] {
        first.receive_packet(packet_of(&data, &[id]));
    }
    let mut second = LtClient::with_rng(metadata, &Flat, rng(16)).unwrap();
    for _ in 0..5000 {
        second.receive_packet(first.try_create_packet().unwrap());
        if second.get_result().is_some() {
            break;
        }
    }
    assert_eq!(second.get_result(), Some(data));
}

#[test]
fn repeated_ids_are_never_peeled() {
    let data = patterned(2 * 1024);
    let mut client = client_for(data.len(), 17);
    client.receive_packet(LtPacket::new(vec![1, 1], Block::new()));
    assert_eq!(client.decoding_progress(), progress(0, 2));
    assert_eq!(client.stale_packets().len(), 1);
    client.receive_packet(packet_of(&data, &[1]));
    assert_eq!(client.decoding_progress(), progress(1, 2));
    assert!(client.stale_packets().is_empty());
    assert_eq!(client.decoded_block(1), Some(Block::from_data(chunk(&data, 1))));
}
