use streaming_test::block::Cid;
use streaming_test::params::TestCaseParams;
use streaming_test::video_player::{StreamerMessage, VideoStream};

fn params() -> TestCaseParams {
    TestCaseParams {
        log: false,
        log_id: 0,
        max_concurrent_send: 2,
        max_size_block: false,
        segment_length: 1,
        sim_time: 60,
        video_bitrate: 1000,
        network_bandwidth: 1000,
    }
}

fn msg(count: u64, timestamp: u64) -> StreamerMessage {
    StreamerMessage { count, timestamp, cids: vec![Cid { bytes: vec![count as u8] }] }
}

#[test]
fn gossip_metrics() {
    let mut stream = VideoStream::new(params(), 4);
    let first = stream.add_gossip(msg(1, 1000), 1300);
    assert_eq!(first.latency, 300);
    assert_eq!(first.jitter, 0);
    let second = stream.add_gossip(msg(2, 2000), 2500);
    assert_eq!(second.latency, 500);
    assert_eq!(second.jitter, 2500 - 1300 - 1000);
    assert_eq!(stream.last_gossip_time(), 2500);
}

#[test]
fn empty_buffer_stops_for_three_ticks() {
    let mut stream = VideoStream::new(params(), 4);
    let r1 = stream.advance_stream(10);
    assert_eq!((r1.stop, r1.latency, r1.skip), (1, None, None));
    stream.add_segment(1, 5, 9);
    let r2 = stream.advance_stream(20);
    assert_eq!(r2.stop, 2);
    assert_eq!(r2.buffer, 1);
    let r3 = stream.advance_stream(30);
    assert_eq!(r3.stop, 3);
    let r4 = stream.advance_stream(40);
    assert_eq!(r4.stop, 0);
    assert_eq!(r4.latency, Some(35));
    assert_eq!(r4.skip, Some(0));
    assert_eq!(stream.current_segment(), 1);
}

#[test]
fn segments_play_in_order() {
    let mut stream = VideoStream::new(params(), 4);
    stream.add_segment(103, 30, 100);
    stream.add_segment(101, 10, 100);
    stream.add_segment(102, 20, 100);
    let metrics = stream.add_segment(102, 21, 120);
    assert_eq!(metrics.latency, 99);
    assert_eq!(metrics.jitter, 120 - 100 - 1000);
    let mut played = vec![];
    for now in [200, 300, 400, 500] {
        let r = stream.advance_stream(now);
        assert_eq!(r.stop, 0);
        played.push((stream.current_segment(), r.latency.unwrap()));
    }
    assert_eq!(played, vec![(101, 190), (102, 280), (102, 379), (103, 470)]);
}

#[test]
fn lagging_buffer_skips_to_the_middle() {
    let mut stream = VideoStream::new(params(), 4);
    for n in 1..=40u64 {
        stream.add_segment(n, n, 100);
    }
    let r = stream.advance_stream(1000);
    // 1 + 30 < 40: skip while the segment is more than 15 behind 40.
    assert_eq!(stream.current_segment(), 25);
    assert_eq!(r.skip, Some(24));
    assert_eq!(r.latency, Some(1000 - 25));
    assert_eq!(r.buffer, 40);
    let r = stream.advance_stream(1001);
    assert_eq!(stream.current_segment(), 26);
    assert_eq!(r.skip, Some(0));
    assert_eq!(r.buffer, 15);
}

#[test]
fn small_buffer_does_not_skip() {
    let mut stream = VideoStream::new(params(), 4);
    stream.add_segment(101, 1, 100);
    stream.add_segment(105, 5, 100);
    let r = stream.advance_stream(100);
    assert_eq!(stream.current_segment(), 101);
    assert_eq!(r.skip, Some(0));
}

#[test]
fn play_fetches_announced_segment_and_drops_stale_fetches() {
    let mut stream = VideoStream::new(params(), 4);
    stream.add_gossip(msg(7, 0), 10);
    stream.add_segment(8, 0, 10);
    assert_eq!(stream._buffer_space(), 29);
    let step = stream.play(50);
    let fetched = step.fetch.unwrap();
    assert_eq!(fetched.count, 7);
    assert_eq!(step.report.gossips, 0);
    // The fetch of segment 7 is dropped once segment 8 plays.
    assert_eq!(step.report.fetch, 1);
    assert_eq!(stream.current_segment(), 8);
    assert_eq!(stream._buffer_space(), 30);
    let step = stream.play(60);
    assert!(step.fetch.is_none());
    assert_eq!(step.report.stop, 1);
}

#[test]
fn long_segments_checked_only_when_period_is_used() {
    let mut p = params();
    p.segment_length = usize::MAX;
    let mut stream = VideoStream::new(p, 4);
    assert!(stream.gossip_arrival_ok(1000, 1300));
    let first = stream.add_gossip(msg(1, 1000), 1300);
    assert_eq!(first.jitter, 0);
    assert!(!stream.gossip_arrival_ok(2000, 2500));
}

#[test]
fn newest_segment_below_buffer_size_cannot_advance() {
    let mut stream = VideoStream::new(params(), 4);
    stream.add_segment(1, 1, 100);
    stream.add_segment(2, 2, 100);
    stream.add_segment(3, 3, 100);
    assert!(!stream.can_advance(200));
    let mut single = VideoStream::new(params(), 4);
    single.add_segment(1, 1, 100);
    assert!(single.can_advance(200));
    let mut enough = VideoStream::new(params(), 4);
    enough.add_segment(1, 1, 100);
    enough.add_segment(30, 2, 100);
    assert!(enough.can_advance(200));
}
