use fountain_codes::distributions::{IdealSolitonDistribution, ProbabilityDensityFunction, UNIT};
use fountain_codes::lt::{Block, LtPacket, LtSource, BLOCK_BYTES};
use fountain_codes::{CreationError, Encoder, Metadata, PartialEncoder, Source};
use rand::{SeedableRng, StdRng};

fn rng(seed: usize) -> StdRng {
    let seed: &[usize] = &[seed, 5, 6, 7];
    StdRng::from_seed(seed)
}

fn patterned(byte_count: usize) -> Vec<u8> {
    (0..byte_count).map(|i| (i * 31 + i / 1024 * 7 + 1) as u8).collect()
}

fn chunk(data: &[u8], index: usize) -> [u8; BLOCK_BYTES] {
    let mut block = [0u8; BLOCK_BYTES];
    for j in 0..BLOCK_BYTES {
        if index * BLOCK_BYTES + j < data.len() {
            block[j] = data[index * BLOCK_BYTES + j];
        }
    }
    block
}

fn combined(data: &[u8], ids: &[u32]) -> Block {
    let mut block = [0u8; BLOCK_BYTES];
    for id in ids {
        let other = chunk(data, *id as usize);
        for j in 0..BLOCK_BYTES {
            block[j] ^= other[j];
        }
    }
    Block::from_data(block)
}

/// Every degree up to the limit is as likely as any other.
struct Flat;

impl ProbabilityDensityFunction for Flat {
    fn density(&self, _point: u32, limit: u32) -> u64 {
        UNIT / (limit as u64) + 1
    }
}

/// Only the largest degree is ever drawn.
struct Last;

impl ProbabilityDensityFunction for Last {
    fn density(&self, point: u32, limit: u32) -> u64 {
        if point == limit {
            UNIT
        } else {
            0
        }
    }
}

/// Only the given degree is ever drawn.
struct Only(u32);

impl ProbabilityDensityFunction for Only {
    fn density(&self, point: u32, _limit: u32) -> u64 {
        if point == self.0 {
            UNIT
        } else {
            0
        }
    }
}

#[test]
fn packets_have_the_drawn_degree() {
    let data = patterned(9 * 1024);
    for degree in [1u32, 2, 5, 9] {
        let mut source =
            LtSource::with_rng(Metadata::new(data.len() as u64), data.clone(), &Only(degree), rng(8)).unwrap();
        let mut seen = std::collections::HashSet::new();
        for _ in 0..200 {
            let packet = source.create_packet();
            assert_eq!(packet.combined_blocks().len(), degree as usize);
            assert_eq!(packet.data(), &combined(&data, packet.combined_blocks()));
            let mut sorted = packet.combined_blocks().clone();
            sorted.sort();
            seen.insert(sorted);
        }
        if degree < 9 {
            assert!(seen.len() > 5);
        } else {
            assert_eq!(seen.len(), 1);
        }
    }
}

#[test]
fn empty_blob_is_refused() {
    let result = LtSource::new(Metadata::new(0), Vec::new(), &IdealSolitonDistribution);
    assert!(matches!(result, Err(CreationError::DataZeroBytes)));
    let seeded = LtSource::with_rng(Metadata::new(0), vec![1, 2, 3], &IdealSolitonDistribution, rng(1));
    assert!(matches!(seeded, Err(CreationError::DataZeroBytes)));
}

#[test]
fn blob_of_another_size_is_refused() {
    let result = LtSource::new(Metadata::new(100), patterned(99), &IdealSolitonDistribution);
    assert!(matches!(result, Err(CreationError::InvalidMetadata)));
    let longer = LtSource::with_rng(Metadata::new(100), patterned(101), &IdealSolitonDistribution, rng(1));
    assert!(matches!(longer, Err(CreationError::InvalidMetadata)));
    let empty = LtSource::new(Metadata::new(u64::MAX), Vec::new(), &IdealSolitonDistribution);
    assert!(matches!(empty, Err(CreationError::InvalidMetadata)));
}

#[test]
fn blob_is_split_into_blocks() {
    for (byte_count, blocks) in [(1, 1), (100, 1), (1024, 1), (1025, 2), (3000, 3), (4096, 4)] {
        let source = LtSource::with_rng(
            Metadata::new(byte_count as u64),
            patterned(byte_count),
            &IdealSolitonDistribution,
            rng(2),
        )
        .unwrap();
        assert_eq!(source.block_count(), blocks);
    }
}

#[test]
fn combined_block_is_the_xor_of_the_named_blocks() {
    let data = patterned(5 * 1024 - 300);
    let source = LtSource::with_rng(Metadata::new(data.len() as u64), data.clone(), &Flat, rng(3)).unwrap();

    let single = source.combine_blocks(vec![2]);
    assert_eq!(single, LtPacket::new(vec![2], Block::from_data(chunk(&data, 2))));

    let last = source.combine_blocks(vec![4]);
    assert_eq!(last.data(), &Block::from_data(chunk(&data, 4)));
    assert_eq!(last.data().data()[1024 - 300], 0);
    assert_eq!(last.data().data()[1023], 0);
    assert_eq!(last.data().data()[1024 - 301], data[data.len() - 1]);

    let several = source.combine_blocks(vec![4, 0, 3]);
    assert_eq!(several.combined_blocks(), &vec![4, 0, 3]);
    assert_eq!(several.data(), &combined(&data, &[4, 0, 3]));

    let none = source.combine_blocks(Vec::new());
    assert_eq!(none, LtPacket::new(Vec::new(), Block::new()));

    let twice = source.combine_blocks(vec![1, 1]);
    assert_eq!(twice.data(), &Block::new());
}

#[test]
fn small_blob_gives_the_padded_block() {
    let data = patterned(100);
    let mut source = LtSource::with_rng(Metadata::new(100), data.clone(), &IdealSolitonDistribution, rng(4)).unwrap();
    for _ in 0..20 {
        let packet = source.create_packet();
        assert_eq!(packet, LtPacket::new(vec![0], Block::from_data(chunk(&data, 0))));
    }
}

#[test]
fn packets_name_distinct_blocks_of_the_blob() {
    let data = patterned(40 * 1024 + 17);
    let block_count = 41;
    let mut source = LtSource::with_rng(Metadata::new(data.len() as u64), data.clone(), &Flat, rng(5)).unwrap();
    assert_eq!(source.block_count(), block_count);

    let mut degrees = vec![0usize; block_count + 1];
    let mut first_ids = vec![0usize; block_count];
    for _ in 0..2000 {
        let packet = source.create_packet();
        let ids = packet.combined_blocks().clone();
        assert!(1 <= ids.len() && ids.len() <= block_count);
        let mut sorted = ids.clone();
        sorted.sort();
        sorted.dedup();
        assert_eq!(sorted.len(), ids.len());
        assert!(ids.iter().all(|id| (*id as usize) < block_count));
        assert_eq!(packet.data(), &combined(&data, &ids));
        degrees[ids.len()] += 1;
        first_ids[ids[0] as usize] += 1;
    }
    // Every degree is drawn, and every block comes first in some packet.
    assert!(degrees[1..].iter().all(|count| *count > 0));
    assert!(first_ids.iter().all(|count| *count > 0));
    assert!(first_ids[0] < 200);
}

#[test]
fn packets_of_full_degree_name_every_block() {
    let data = patterned(6 * 1024);
    let mut source = LtSource::with_rng(Metadata::new(data.len() as u64), data.clone(), &Last, rng(6)).unwrap();
    let mut orders = std::collections::HashSet::new();
    for _ in 0..50 {
        let packet = source.create_packet();
        let mut sorted = packet.combined_blocks().clone();
        orders.insert(sorted.clone());
        sorted.sort();
        assert_eq!(sorted, vec![0, 1, 2, 3, 4, 5]);
        assert_eq!(packet.data(), &combined(&data, &[0, 1, 2, 3, 4, 5]));
    }
    assert!(orders.len() > 10);
}

#[test]
fn an_encoder_always_has_a_packet() {
    let data = patterned(3 * 1024 + 5);
    let mut source = LtSource::with_rng(Metadata::new(data.len() as u64), data.clone(), &Flat, rng(7)).unwrap();
    for _ in 0..100 {
        let packet = source.try_create_packet().unwrap();
        assert!(!packet.combined_blocks().is_empty());
        assert_eq!(packet.data(), &combined(&data, packet.combined_blocks()));
    }
}

#[test]
fn a_fresh_encoder_can_be_seeded() {
    let data = patterned(2000);
    let mut source = LtSource::new(Metadata::new(2000), data.clone(), &IdealSolitonDistribution).unwrap();
    assert_eq!(source.block_count(), 2);
    let packet = source.create_packet();
    assert_eq!(packet.data(), &combined(&data, packet.combined_blocks()));
}
