use rand::SeedableRng;
use streaming_test::network::random_peer_index;
use streaming_test::block::PeerId;
use streaming_test::network::{
    data_network_ip, parse_announcement, IpAddress, NetInterface, PeerCollector, Subnet, LOCALHOST,
};

fn v4(a: u8, b: u8, c: u8, d: u8) -> u32 {
    u32::from_be_bytes([a, b, c, d])
}

fn interfaces() -> Vec<NetInterface> {
    vec![
        NetInterface { is_up: true, is_loopback: true, ips: vec![IpAddress::V4(LOCALHOST)] },
        NetInterface { is_up: false, is_loopback: false, ips: vec![IpAddress::V4(v4(16, 0, 0, 9))] },
        NetInterface {
            is_up: true,
            is_loopback: false,
            ips: vec![IpAddress::V6(1), IpAddress::V4(v4(10, 0, 0, 2)), IpAddress::V4(v4(16, 0, 1, 3))],
        },
        NetInterface { is_up: true, is_loopback: false, ips: vec![IpAddress::V4(v4(16, 0, 2, 4))] },
    ]
}

#[test]
fn data_ip_without_sidecar_is_loopback() {
    let subnet = Subnet::V4(v4(16, 0, 0, 0), 16);
    assert_eq!(data_network_ip(false, subnet, &interfaces()), IpAddress::V4(LOCALHOST));
}

#[test]
fn data_ip_first_address_in_subnet() {
    let subnet = Subnet::V4(v4(16, 0, 0, 0), 16);
    assert_eq!(data_network_ip(true, subnet, &interfaces()), IpAddress::V4(v4(16, 0, 1, 3)));
    let narrow = Subnet::V4(v4(16, 0, 2, 0), 24);
    assert_eq!(data_network_ip(true, narrow, &interfaces()), IpAddress::V4(v4(16, 0, 2, 4)));
}

#[test]
fn data_ip_none_in_subnet_is_loopback() {
    let subnet = Subnet::V4(v4(192, 168, 0, 0), 16);
    assert_eq!(data_network_ip(true, subnet, &interfaces()), IpAddress::V4(LOCALHOST));
    let v6 = Subnet::V6(0, 64);
    assert_eq!(data_network_ip(true, v6, &interfaces()), IpAddress::V4(LOCALHOST));
}

#[test]
fn announcement_roundtrip() {
    let key = libp2p::identity::Keypair::generate_ed25519();
    let peer = libp2p::PeerId::from(key.public());
    let addr: libp2p::Multiaddr = "/ip4/16.0.1.3/tcp/4001".parse().unwrap();
    let text = format!("{} {}", peer.to_base58(), addr);
    let (p, a) = parse_announcement(&text).unwrap();
    assert_eq!(p.bytes, peer.to_bytes());
    assert_eq!(a, addr.to_vec());
    assert_ne!(a, text.as_bytes().to_vec());
}

#[test]
fn announcement_rejected() {
    assert!(parse_announcement("onlyonepart").is_none());
    assert!(parse_announcement("notapeer /ip4/1.2.3.4/tcp/1").is_none());
    let key = libp2p::identity::Keypair::generate_ed25519();
    let peer = libp2p::PeerId::from(key.public());
    assert!(parse_announcement(&format!("{} notanaddress", peer.to_base58())).is_none());
}

#[test]
fn collector_skips_itself_and_stops_at_target() {
    let me = PeerId { bytes: vec![1] };
    let mut collector = PeerCollector::new(me.clone(), 2);
    assert!(!collector.offer(PeerId { bytes: vec![2] }, vec![20]));
    assert!(!collector.offer(me.clone(), vec![10]));
    assert!(collector.offer(PeerId { bytes: vec![3] }, vec![30]));
    let (peers, addrs) = collector.into_peers();
    assert_eq!(peers, vec![PeerId { bytes: vec![2] }, PeerId { bytes: vec![3] }]);
    assert_eq!(addrs, vec![vec![20], vec![30]]);
}

#[test]
fn random_peer_index_is_in_range() {
    let mut rng = rand_xoshiro::Xoshiro256StarStar::seed_from_u64(7);
    for count in 1..50usize {
        assert!(random_peer_index(&mut rng, count) < count);
    }
    assert_eq!(random_peer_index(&mut rng, 1), 0);
}
