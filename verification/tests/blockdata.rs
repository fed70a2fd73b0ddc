//! Chains of blocks and the pool.

use dnsmasq_dns::blockdata::{init, report, BlockAllocator, BlockData, ShortRead, KEYBLOCK_LEN};

#[test]
fn test_empty_blockdata() {
    let empty = BlockData::new();
    assert!(empty.is_empty());
    assert_eq!(empty.len(), 0);
    assert_eq!(empty.to_bytes(), Vec::<u8>::new());
}

#[test]
fn test_single_block() {
    let data = vec![1u8, 2, 3, 4, 5];
    let blocks = BlockData::from_bytes(&data);
    assert_eq!(blocks.len(), 5);
    assert!(!blocks.is_empty());
    assert_eq!(blocks.to_bytes(), data);
}

#[test]
fn test_multiple_blocks() {
    let data: Vec<u8> = (0..100).map(|i| (i % 256) as u8).collect();
    let blocks = BlockData::from_bytes(&data);
    assert_eq!(blocks.len(), 100);
    assert_eq!(blocks.to_bytes(), data);
}

#[test]
fn test_exact_block_boundary() {
    let data = vec![0xAB; KEYBLOCK_LEN * 3];
    let blocks = BlockData::from_bytes(&data);
    assert_eq!(blocks.len(), KEYBLOCK_LEN * 3);
    assert_eq!(blocks.to_bytes(), data);
}

#[test]
fn test_copy_to_buffer() {
    let data = vec![1, 2, 3, 4, 5];
    let blocks = BlockData::from_bytes(&data);

    let mut buffer = [0u8; 10];
    let copied = blocks.copy_to_buffer(&mut buffer);
    assert_eq!(copied, 5);
    assert_eq!(&buffer[..5], &data[..]);
}

#[test]
fn test_copy_to_small_buffer() {
    let data = vec![1, 2, 3, 4, 5];
    let blocks = BlockData::from_bytes(&data);

    let mut buffer = [0u8; 3];
    let copied = blocks.copy_to_buffer(&mut buffer);
    assert_eq!(copied, 3);
    assert_eq!(&buffer[..], &data[..3]);
}

#[test]
fn test_clone() {
    let data = vec![1, 2, 3, 4, 5];
    let blocks1 = BlockData::from_bytes(&data);
    let blocks2 = blocks1.clone();

    assert_eq!(blocks1.len(), blocks2.len());
    assert_eq!(blocks1.to_bytes(), blocks2.to_bytes());
}

#[test]
fn test_init_and_report() {
    let mut pool = init(100, true);
    report(&pool, 48);

    let data = vec![0u8; 200];
    let blocks = BlockData::from_pool(&mut pool, &data);
    assert_eq!(blocks.len(), 200);
    pool.free_chain(blocks);

    report(&pool, 48);
}

#[test]
fn test_write_and_read() {
    let original_data = vec![1, 2, 3, 4, 5, 6, 7, 8, 9, 10];
    let blocks = BlockData::from_bytes(&original_data);

    let mut written_data = Vec::new();
    blocks.write_to(&mut written_data);
    assert_eq!(written_data, original_data);

    let read_blocks = BlockData::from_reader(&written_data, original_data.len()).unwrap();
    assert_eq!(read_blocks.to_bytes(), original_data);
}

#[test]
fn test_large_data() {
    let data: Vec<u8> = (0..1000).map(|i| (i % 256) as u8).collect();
    let blocks = BlockData::from_bytes(&data);
    assert_eq!(blocks.len(), 1000);

    let retrieved = blocks.to_bytes();
    assert_eq!(retrieved, data);
}

#[test]
fn test_freelist_reuse() {
    let mut pool = init(10, true);

    for _ in 0..5 {
        let data = vec![0u8; 100];
        let blocks = BlockData::from_pool(&mut pool, &data);
        assert_eq!(blocks.len(), 100);
        pool.free_chain(blocks);
    }

    report(&pool, 48);
}

#[test]
fn test_default() {
    let blocks = BlockData::default();
    assert!(blocks.is_empty());
    assert_eq!(blocks.len(), 0);
}

#[test]
fn short_read_is_reported() {
    let r = BlockData::from_reader(&[1, 2, 3], 5);
    assert_eq!(r.err(), Some(ShortRead { expected: 5, actual: 3 }));
}

#[test]
fn pool_counts_what_is_taken_and_put_back() {
    let mut pool = init(10, true);
    let (used, peak, total) = pool.get_stats();
    assert_eq!((used, peak), (0, 0));
    assert_eq!(total, 10);

    let blocks = BlockData::from_pool(&mut pool, &[7u8; 100]);
    let (used, peak, total) = pool.get_stats();
    assert_eq!((used, peak, total), (3, 3, 10));

    pool.free_chain(blocks);
    let (used, peak, total) = pool.get_stats();
    assert_eq!((used, peak, total), (0, 3, 10));
}

#[test]
fn empty_pool_grows_by_fifty() {
    let mut pool = BlockAllocator::new();
    assert!(pool.alloc_block().is_some());
    let (used, peak, total) = pool.get_stats();
    assert_eq!((used, peak, total), (1, 1, 50));
}

#[test]
fn reset_without_dnssec_leaves_no_blocks() {
    let mut pool = init(10, true);
    pool.reset(20, false);
    assert_eq!(pool.get_stats(), (0, 0, 0));
    pool.expand(3);
    assert_eq!(pool.get_stats(), (0, 0, 3));
}
