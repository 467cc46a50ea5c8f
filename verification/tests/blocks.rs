use rand::SeedableRng;
use rand_xoshiro::Xoshiro256StarStar;
use streaming_test::block::{
    block_sizes, cid_for_data, generate_blocks, random_block, MAX_BLOCK_SIZE, STANDARD_BLOCK_SIZE,
};
use streaming_test::streamer::{generate_video, segment_message};
use streaming_test::params::TestCaseParams;

#[test]
fn block_test() {
    let mut rng = Xoshiro256StarStar::seed_from_u64(79082340324789u64);

    let bitrate = 6000000;
    let segment_length = 4;
    let max_size = false;

    let blocks = generate_blocks(&mut rng, bitrate, segment_length, max_size);

    for block in blocks.iter() {
        let cid = cid::Cid::try_from(block.cid.bytes.clone()).unwrap();
        println!("CID -> {}", cid);
    }

    assert_eq!(blocks.len(), 12);
}

#[test]
fn block_sizes_with_remainder() {
    // 6 Mbit/s for 4 s is 3_000_000 bytes: 11 full blocks and the rest.
    let sizes = block_sizes(6_000_000, 4, false);
    assert_eq!(sizes.len(), 12);
    for s in &sizes[..11] {
        assert_eq!(*s, STANDARD_BLOCK_SIZE);
    }
    assert_eq!(sizes[11], 3_000_000 - 11 * STANDARD_BLOCK_SIZE);
    assert_eq!(sizes.iter().sum::<usize>(), 3_000_000);
}

#[test]
fn block_sizes_exact_multiple() {
    // 8 * 524288 bits is exactly one large block.
    let sizes = block_sizes(8 * MAX_BLOCK_SIZE, 1, true);
    assert_eq!(sizes, vec![MAX_BLOCK_SIZE]);
    let sizes = block_sizes(16 * STANDARD_BLOCK_SIZE, 2, false);
    assert_eq!(sizes, vec![STANDARD_BLOCK_SIZE; 4]);
}

#[test]
fn block_sizes_small_segment() {
    assert_eq!(block_sizes(80, 1, false), vec![10]);
}

#[test]
fn random_block_has_its_cid() {
    let mut rng = Xoshiro256StarStar::seed_from_u64(1);
    let block = random_block(&mut rng, 1000);
    assert_eq!(block.data.len(), 1000);
    assert!(block.data.iter().any(|b| *b != 0));
    let expected = cid::Cid::new_v1(
        0x00,
        multihash::MultihashDigest::digest(&multihash::Code::Sha2_256, &block.data),
    );
    assert_eq!(block.cid.bytes, expected.to_bytes());
    assert_eq!(&block.cid.bytes[..4], &[0x01, 0x00, 0x12, 0x20]);
    assert_eq!(block.cid.bytes.len(), 36);
    assert_ne!(cid_for_data(&vec![1, 2, 3]), cid_for_data(&vec![1, 2, 4]));
}

#[test]
fn cid_of_known_data() {
    let cid = cid_for_data(&b"hello world".to_vec());
    let digest: [u8; 32] = [
        0xb9, 0x4d, 0x27, 0xb9, 0x93, 0x4d, 0x3e, 0x08, 0xa5, 0x2e, 0x52, 0xd7, 0xda, 0x7d, 0xab,
        0xfa, 0xc4, 0x84, 0xef, 0xe3, 0x7a, 0x53, 0x80, 0xee, 0x90, 0x88, 0xf7, 0xac, 0xe2, 0xef,
        0xcd, 0xe9,
    ];
    let mut expected = vec![0x01, 0x00, 0x12, 0x20];
    expected.extend_from_slice(&digest);
    assert_eq!(cid.bytes, expected);
}

#[test]
fn generate_video_counts_segments() {
    let params = TestCaseParams {
        log: false,
        log_id: 0,
        max_concurrent_send: 1,
        max_size_block: true,
        segment_length: 2,
        sim_time: 10,
        video_bitrate: 4_000_000,
        network_bandwidth: 1,
    };
    let mut rng = Xoshiro256StarStar::seed_from_u64(5);
    let mut counter = 1u64;
    let first = generate_video(&mut rng, &mut counter, &params);
    let second = generate_video(&mut rng, &mut counter, &params);
    assert_eq!(first.count, 1);
    assert_eq!(second.count, 2);
    assert_eq!(counter, 3);
    // 1_000_000 bytes in blocks of 524288.
    assert_eq!(first.blocks.len(), 2);
    assert_eq!(first.blocks[1].data.len(), 1_000_000 - MAX_BLOCK_SIZE);
    let msg = segment_message(first.count, 1234, &first.blocks);
    assert_eq!(msg.count, 1);
    assert_eq!(msg.timestamp, 1234);
    assert_eq!(msg.cids.len(), 2);
    assert_eq!(msg.cids[0], first.blocks[0].cid);
    assert_eq!(msg.cids[1], first.blocks[1].cid);
}
