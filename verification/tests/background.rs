use streaming_test::background::{bootstrap_reply_due, BitswapEvent, IpfsBackgroundService};
use streaming_test::block::{Block, Cid, PeerId};

fn cid(n: u8) -> Cid {
    Cid { bytes: vec![n; 4] }
}

fn peer(n: u8) -> PeerId {
    PeerId { bytes: vec![n; 3] }
}

fn block(n: u8) -> Block {
    Block { cid: cid(n), data: vec![n; 10] }
}

#[test]
fn want_of_held_block_is_served() {
    let mut service = IpfsBackgroundService::new(2);
    service.block_add(block(1));
    let actions = service.bitswap(BitswapEvent::ReceivedWant(peer(7), cid(1), 0));
    assert!(actions.deliver.is_none());
    assert_eq!(actions.send, Some((peer(7), block(1))));
}

#[test]
fn want_of_missing_block_waits_for_it() {
    let mut service = IpfsBackgroundService::new(2);
    let actions = service.bitswap(BitswapEvent::ReceivedWant(peer(7), cid(1), 0));
    assert!(actions.send.is_none());
    let actions = service.bitswap(BitswapEvent::ReceivedBlock(peer(9), block(1)));
    assert!(actions.deliver.is_none());
    assert_eq!(actions.send, Some((peer(7), block(1))));
}

#[test]
fn received_block_answers_local_request() {
    let mut service = IpfsBackgroundService::new(2);
    assert!(!service.block_get(cid(3)));
    assert!(service.block_get(cid(3)));
    let actions = service.bitswap(BitswapEvent::ReceivedBlock(peer(9), block(3)));
    assert_eq!(actions.deliver, Some(block(3)));
    let actions = service.bitswap(BitswapEvent::ReceivedBlock(peer(9), block(3)));
    assert!(actions.deliver.is_none());
}

#[test]
fn no_more_than_max_concurrent_sends() {
    let mut service = IpfsBackgroundService::new(1);
    service.block_add(block(1));
    service.block_add(block(2));
    let first = service.bitswap(BitswapEvent::ReceivedWant(peer(1), cid(1), 0));
    assert_eq!(first.send, Some((peer(1), block(1))));
    let second = service.bitswap(BitswapEvent::ReceivedWant(peer(2), cid(2), 0));
    assert!(second.send.is_none());
    // The first peer cancels: its slot is freed and the next want is served.
    let third = service.bitswap(BitswapEvent::ReceivedCancel(peer(1), cid(1)));
    assert_eq!(third.send, Some((peer(2), block(2))));
}

#[test]
fn cancel_of_unsent_pair_sends_nothing() {
    let mut service = IpfsBackgroundService::new(0);
    service.block_add(block(1));
    let actions = service.bitswap(BitswapEvent::ReceivedWant(peer(1), cid(1), 0));
    assert!(actions.send.is_none());
    let actions = service.bitswap(BitswapEvent::ReceivedCancel(peer(1), cid(1)));
    assert!(actions.send.is_none());
}

#[test]
fn same_pair_not_sent_twice_while_pending() {
    let mut service = IpfsBackgroundService::new(3);
    service.block_add(block(1));
    let a = service.bitswap(BitswapEvent::ReceivedWant(peer(1), cid(1), 0));
    assert_eq!(a.send, Some((peer(1), block(1))));
    let b = service.bitswap(BitswapEvent::ReceivedWant(peer(1), cid(1), 0));
    assert!(b.send.is_none());
    let c = service.bitswap(BitswapEvent::ReceivedWant(peer(2), cid(1), 0));
    assert_eq!(c.send, Some((peer(2), block(1))));
}

#[test]
fn bootstrap_reply_waits_for_last_step() {
    assert!(!bootstrap_reply_due(true, 3));
    assert!(bootstrap_reply_due(true, 0));
    assert!(bootstrap_reply_due(false, 3));
    assert!(bootstrap_reply_due(false, 0));
}
