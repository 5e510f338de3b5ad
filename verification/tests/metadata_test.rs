use fountain_codes::data;
use fountain_codes::data::MetadataError;
use fountain_codes::lt::BLOCK_BYTES;
use fountain_codes::Metadata;

#[test]
fn metadata_boundary() {
    assert_eq!(data::Metadata::new(0, 1024), Err(MetadataError::DataZeroBytes));
    assert_eq!(data::Metadata::new(u64::MAX, 1024), Err(MetadataError::DataTooBig));
    assert_eq!(data::Metadata::new(1024, 1024).unwrap().data_blocks(), 1);
    assert_eq!(data::Metadata::new(1025, 1024).unwrap().data_blocks(), 2);
}

#[test]
fn metadata_keeps_the_size() {
    for size in [1u64, 2, 1023, 1024, 1025, 4096, 1_000_000, 15 * 1024 * 1024] {
        let metadata = data::Metadata::new(size, BLOCK_BYTES as u32).unwrap();
        assert_eq!(metadata.data_bytes(), size);
        assert_eq!(metadata.data_blocks() as u64, (size + 1023) / 1024);
    }
}

#[test]
fn metadata_rounds_the_block_count_up() {
    assert_eq!(data::Metadata::new(1, 1024).unwrap().data_blocks(), 1);
    assert_eq!(data::Metadata::new(1023, 1024).unwrap().data_blocks(), 1);
    assert_eq!(data::Metadata::new(2048, 1024).unwrap().data_blocks(), 2);
    assert_eq!(data::Metadata::new(2049, 1024).unwrap().data_blocks(), 3);
    assert_eq!(data::Metadata::new(10, 3).unwrap().data_blocks(), 4);
    assert_eq!(data::Metadata::new(9, 3).unwrap().data_blocks(), 3);
    assert_eq!(data::Metadata::new(7, 1).unwrap().data_blocks(), 7);
}

#[test]
fn metadata_block_count_limit() {
    let most = (u32::MAX as u64) * 1024;
    assert_eq!(data::Metadata::new(most, 1024).unwrap().data_blocks(), u32::MAX);
    assert_eq!(data::Metadata::new(most - 1, 1024).unwrap().data_blocks(), u32::MAX);
    assert_eq!(data::Metadata::new(most + 1, 1024), Err(MetadataError::DataTooBig));
    assert_eq!(data::Metadata::new(1u64 << 42, 1024), Err(MetadataError::DataTooBig));
    assert_eq!(data::Metadata::new(u64::MAX, 1), Err(MetadataError::DataTooBig));
    assert_eq!(data::Metadata::new(u64::MAX, u32::MAX), Err(MetadataError::DataTooBig));
    assert_eq!(data::Metadata::new(u32::MAX as u64, u32::MAX).unwrap().data_blocks(), 1);
}

#[test]
fn metadata_values_compare() {
    let metadata = data::Metadata::new(5000, 1024).unwrap();
    assert_eq!(metadata, data::Metadata::new(5000, 1024).unwrap());
    assert_ne!(metadata, data::Metadata::new(5001, 1024).unwrap());
}

#[test]
fn declared_size_is_kept() {
    assert_eq!(Metadata::new(0).data_bytes(), 0);
    assert_eq!(Metadata::new(100).data_bytes(), 100);
    assert_eq!(Metadata::new(u64::MAX).data_bytes(), u64::MAX);
}

#[test]
fn declared_size_gives_the_block_count() {
    assert_eq!(Metadata::new(0).data_blocks(), 0);
    assert_eq!(Metadata::new(1).data_blocks(), 1);
    assert_eq!(Metadata::new(1024).data_blocks(), 1);
    assert_eq!(Metadata::new(1025).data_blocks(), 2);
    assert_eq!(Metadata::new(15 * 1024 * 1024).data_blocks(), 15360);
    assert_eq!(Metadata::new(u64::MAX).data_blocks(), 1 << 54);
}
