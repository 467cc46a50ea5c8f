use std::collections::HashSet;

use rand::{Rng, SeedableRng};
use rand_xoshiro::Xoshiro256StarStar;
use streaming_test::block::{random_block, Block, Cid, PeerId, STANDARD_BLOCK_SIZE};
use streaming_test::block_exchange::BlockExchange;

fn get_random_peer_id() -> PeerId {
    let local_key = libp2p::identity::Keypair::generate_ed25519();

    PeerId { bytes: libp2p::PeerId::from(local_key.public()).to_bytes() }
}

fn cid(n: u8) -> Cid {
    Cid { bytes: vec![n; 4] }
}

fn peer(n: u8) -> PeerId {
    PeerId { bytes: vec![n; 3] }
}

fn block(n: u8) -> Block {
    Block { cid: cid(n), data: vec![n; 10] }
}

#[test]
fn empty_remove() {
    let mut rng = Xoshiro256StarStar::seed_from_u64(5634653465365u64);

    let block = random_block(&mut rng, STANDARD_BLOCK_SIZE);
    let peer = get_random_peer_id();

    let mut exchange = BlockExchange::default();

    exchange.add_want(peer.clone(), block.cid().clone());

    exchange.remove_wants(block.cid());

    exchange.remove_want(&peer, block.cid());
}

#[test]
fn block_roundtrip() {
    let mut rng = Xoshiro256StarStar::seed_from_u64(5634653465365u64);

    let block_one = random_block(&mut rng, STANDARD_BLOCK_SIZE);

    let mut exchange = BlockExchange::default();

    exchange.add_block(block_one.clone());

    let block_two = exchange.get_block(block_one.cid()).unwrap();

    assert_eq!(block_one, block_two)
}

#[test]
fn want_roundtrip() {
    let mut rng = Xoshiro256StarStar::seed_from_u64(5634653465365u64);

    let block = random_block(&mut rng, STANDARD_BLOCK_SIZE);
    let peer = get_random_peer_id();
    let cid = block.cid().clone();

    let mut exchange = BlockExchange::default();

    exchange.add_want(peer.clone(), cid.clone());

    exchange.remove_want(&peer, &cid);

    let peers: Vec<PeerId> = exchange.iter_who_want_block(cid);

    assert!(peers.is_empty())
}

#[test]
fn want_exchange() {
    let mut rng = Xoshiro256StarStar::seed_from_u64(5634653465365u64);

    let blocks = (0..5)
        .map(|_| random_block(&mut rng, STANDARD_BLOCK_SIZE))
        .collect::<Vec<Block>>();

    let peers = (0..5)
        .map(|_| get_random_peer_id())
        .collect::<Vec<PeerId>>();

    let mut exchange = BlockExchange::default();

    // first peer want all blocks -> last peer want the last block
    for (i, peer) in peers.iter().enumerate() {
        for (j, block) in blocks.iter().enumerate() {
            if i > j {
                continue;
            }

            exchange.add_want(peer.clone(), block.cid().clone());
        }
    }

    let set: HashSet<PeerId> = exchange
        .iter_who_want_block(blocks[4].cid().clone())
        .into_iter()
        .collect();

    assert_eq!(set, peers.clone().into_iter().collect::<HashSet<PeerId>>());

    exchange.remove_wants(blocks[0].cid());

    let set: HashSet<PeerId> = exchange
        .iter_who_want_block(blocks[0].cid().clone())
        .into_iter()
        .collect();

    assert!(set.is_empty());

    exchange.add_want(peers[0].clone(), blocks[0].cid().clone());

    let set: HashSet<PeerId> = exchange
        .iter_who_want_block(blocks[0].cid().clone())
        .into_iter()
        .collect();

    assert!(set.len() == 1)
}

#[test]
fn exchange_fuzz() {
    let mut rng = Xoshiro256StarStar::seed_from_u64(5634653465365u64);

    let max = 10;

    let blocks = (0..max)
        .map(|_| random_block(&mut rng, STANDARD_BLOCK_SIZE))
        .collect::<Vec<Block>>();

    let peers = (0..max)
        .map(|_| get_random_peer_id())
        .collect::<Vec<PeerId>>();

    let mut exchange = BlockExchange::default();

    for peer in peers.iter() {
        let rand: usize = rng.gen_range(1..max);
        // Random # of wants
        for _ in 0..rand {
            let rand_i: usize = rng.gen_range(0..max);
            // For random blocks
            exchange.add_want(peer.clone(), blocks[rand_i].cid().clone());
        }
    }

    for block in blocks.iter() {
        exchange.add_block(block.clone());
    }

    for peer in peers.iter() {
        let rand: usize = rng.gen_range(1..max);
        // Random # of wants
        for _ in 0..rand {
            let rand_i: usize = rng.gen_range(0..max);
            // For random blocks
            exchange.remove_want(peer, blocks[rand_i].cid());
        }
    }

    for peer in peers.iter() {
        let rand: usize = rng.gen_range(1..max);
        // Random # of wants
        for _ in 0..rand {
            let rand_i: usize = rng.gen_range(0..max);
            // For random blocks
            exchange.add_want(peer.clone(), blocks[rand_i].cid().clone());
        }
    }

    for block in blocks.iter() {
        exchange.remove_wants(block.cid());
    }
}

#[test]
fn wanted_block_added_later_keeps_its_data() {
    let mut exchange = BlockExchange::new();
    exchange.add_want(peer(1), cid(1));
    exchange.add_want(peer(1), cid(2));
    assert!(exchange.add_block(block(2)));
    assert!(exchange.add_block(block(3)));
    assert!(exchange.add_block(block(1)));
    for n in 1..=3 {
        assert_eq!(exchange.get_block(&cid(n)), Some(block(n)));
    }
    assert_eq!(exchange.get_block(&cid(4)), None);
    let wanted = exchange.iter_wanted_blocks();
    assert_eq!(wanted, vec![(peer(1), block(1)), (peer(1), block(2))]);
}

#[test]
fn add_block_twice_is_refused() {
    let mut exchange = BlockExchange::new();
    assert!(exchange.add_block(block(1)));
    let other = Block { cid: cid(1), data: vec![9; 3] };
    assert!(!exchange.add_block(other));
    assert_eq!(exchange.get_block(&cid(1)), Some(block(1)));
}

#[test]
fn wanted_blocks_only_held_ones_in_order() {
    let mut exchange = BlockExchange::new();
    exchange.add_want(peer(1), cid(1));
    exchange.add_want(peer(2), cid(2));
    exchange.add_want(peer(3), cid(1));
    assert!(exchange.iter_wanted_blocks().is_empty());
    exchange.add_block(block(1));
    assert_eq!(
        exchange.iter_wanted_blocks(),
        vec![(peer(1), block(1)), (peer(3), block(1))]
    );
    assert_eq!(exchange.iter_who_want_block(cid(1)), vec![peer(1), peer(3)]);
}

#[test]
fn remove_want_keeps_other_wants_in_order() {
    let mut exchange = BlockExchange::new();
    exchange.add_want(peer(1), cid(1));
    exchange.add_want(peer(2), cid(1));
    exchange.add_want(peer(1), cid(2));
    exchange.add_want(peer(1), cid(1));
    exchange.add_want(peer(3), cid(1));
    exchange.remove_want(&peer(1), &cid(1));
    assert_eq!(exchange.iter_who_want_block(cid(1)), vec![peer(2), peer(3)]);
    assert_eq!(exchange.iter_who_want_block(cid(2)), vec![peer(1)]);
    exchange.remove_wants(&cid(1));
    assert!(exchange.iter_who_want_block(cid(1)).is_empty());
    assert_eq!(exchange.iter_who_want_block(cid(2)), vec![peer(1)]);
}

#[test]
fn sort_orders_by_first_want_and_is_stable() {
    let mut exchange = BlockExchange::new();
    // Peers register in the order 2, 1, 3.
    exchange.add_want(peer(2), cid(1));
    exchange.add_want(peer(1), cid(2));
    exchange.add_want(peer(3), cid(3));
    exchange.add_want(peer(1), cid(4));
    exchange.add_want(peer(2), cid(5));
    for n in 1..=5 {
        exchange.add_block(block(n));
    }
    exchange.insertion_sort_wants();
    let order: Vec<(PeerId, Cid)> = exchange
        .iter_wanted_blocks()
        .into_iter()
        .map(|(p, b)| (p, b.cid))
        .collect();
    assert_eq!(
        order,
        vec![
            (peer(2), cid(1)),
            (peer(2), cid(5)),
            (peer(1), cid(2)),
            (peer(1), cid(4)),
            (peer(3), cid(3)),
        ]
    );
}

#[test]
fn sorting_twice_changes_nothing() {
    let mut exchange = BlockExchange::new();
    exchange.add_want(peer(3), cid(1));
    exchange.add_want(peer(1), cid(2));
    exchange.add_want(peer(3), cid(3));
    exchange.add_want(peer(2), cid(4));
    exchange.add_want(peer(1), cid(5));
    for n in 1..=5 {
        exchange.add_block(block(n));
    }
    exchange.insertion_sort_wants();
    let once = exchange.iter_wanted_blocks();
    exchange.insertion_sort_wants();
    assert_eq!(exchange.iter_wanted_blocks(), once);
    assert_eq!(once[0], (peer(3), block(1)));
    assert_eq!(once[1], (peer(3), block(3)));
}
