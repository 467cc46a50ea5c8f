//! The node's place on the test network: which address it listens on, and
//! the announcements by which the nodes learn of each other.
use vstd::prelude::*;
use crate::block::PeerId;
use rand::Rng;
use rand_xoshiro::Xoshiro256StarStar;
use crate::text::{chars_of, split_chars, split_spec, views_of};

verus! {

/// An IP address, as the numbers that its octets form.
#[derive(PartialEq, Eq, Structural, Debug, Clone, Copy)]
pub enum IpAddress {
    V4(u32),
    V6(u128),
}

/// An IP network: an address and a prefix length.
#[derive(PartialEq, Eq, Structural, Debug, Clone, Copy)]
pub enum Subnet {
    /// Address and prefix length.
    V4(u32, u8),
    /// Address and prefix length.
    V6(u128, u8),
}

/// A network interface of the machine, as the operating system reports it.
pub struct NetInterface {
    pub is_up: bool,
    pub is_loopback: bool,
    pub ips: Vec<IpAddress>,
}

/// An interface, by value.
pub type InterfaceView = (bool, bool, Seq<IpAddress>);

/// The views of the interfaces.
pub open spec fn interface_views(s: Seq<NetInterface>) -> Seq<InterfaceView> {
    s.map_values(|i: NetInterface| (i.is_up, i.is_loopback, i.ips@))
}

/// The IPv4 loopback address, 127.0.0.1.
pub const LOCALHOST: u32 = 0x7f00_0001;

/// The network mask of an IPv4 prefix length, as `Ipv4Network::mask`
/// computes it.
pub open spec fn ipv4_mask(prefix: u8) -> u32 {
    (!(0xffff_ffffu64 >> prefix)) as u32
}

/// Whether the IPv4 network `addr/prefix` holds `ip`.
pub open spec fn ipv4_contains(addr: u32, prefix: u8, ip: u32) -> bool {
    (ip & ipv4_mask(prefix)) == (addr & ipv4_mask(prefix))
}

/// Whether `subnet` holds `ip` (never for addresses of the other family).
pub open spec fn subnet_contains(subnet: Subnet, ip: IpAddress) -> bool {
    match (subnet, ip) {
        (Subnet::V4(addr, prefix), IpAddress::V4(a)) => ipv4_contains(addr, prefix, a),
        _ => false,
    }
}

/// A prefix length no longer than the address.
pub open spec fn subnet_ok(subnet: Subnet) -> bool {
    match subnet {
        Subnet::V4(_, prefix) => prefix <= 32,
        Subnet::V6(_, prefix) => prefix <= 128,
    }
}

/// `ipnetwork::Ipv4Network::new(addr, prefix)` then `contains(ip)`; the
/// contract states the mask computation of the crate's source.
#[verifier::external_body]
fn ipv4_network_contains(addr: u32, prefix: u8, ip: u32) -> (out: bool)
    requires
        prefix <= 32,
    ensures
        out == ((ip & ((!(0xffff_ffffu64 >> prefix)) as u32)) == (addr & ((!(0xffff_ffffu64 >> prefix)) as u32))),
{
    match ipnetwork::Ipv4Network::new(addr.into(), prefix) {
        Ok(net) => net.contains(ip.into()),
        Err(_) => false,
    }
}

/// The first IPv4 address in `subnet` among the addresses of the interfaces
/// that are up, are not the loopback and have addresses, in the order given.
pub open spec fn first_in_subnet(interfaces: Seq<InterfaceView>, subnet: Subnet) -> Option<u32>
    decreases interfaces.len(),
{
    if interfaces.len() == 0 {
        None
    } else {
        let i = interfaces[0];
        let here = if i.0 && !i.1 && i.2.len() > 0 { first_ip_in(i.2, subnet) } else { None };
        match here {
            Some(a) => Some(a),
            None => first_in_subnet(interfaces.drop_first(), subnet),
        }
    }
}

/// The first IPv4 address of `ips` in `subnet`.
pub open spec fn first_ip_in(ips: Seq<IpAddress>, subnet: Subnet) -> Option<u32>
    decreases ips.len(),
{
    if ips.len() == 0 {
        None
    } else {
        match ips[0] {
            IpAddress::V4(a) if subnet_contains(subnet, ips[0]) => Some(a),
            _ => first_ip_in(ips.drop_first(), subnet),
        }
    }
}

/// The address of this node on the data network: with a sidecar, the first
/// IPv4 address in `subnet` of an interface that is up and not the loopback;
/// otherwise, or when there is none, the loopback address.
pub open spec fn data_network_ip_spec(sidecar: bool, subnet: Subnet, interfaces: Seq<InterfaceView>) -> u32 {
    if !sidecar {
        LOCALHOST
    } else {
        match first_in_subnet(interfaces, subnet) {
            Some(a) => a,
            None => LOCALHOST,
        }
    }
}

/// Whether `subnet` holds `ip`.
fn contains_ip(subnet: Subnet, ip: IpAddress) -> (out: bool)
    requires
        subnet_ok(subnet),
    ensures
        out == subnet_contains(subnet, ip),
{
    match (subnet, ip) {
        (Subnet::V4(addr, prefix), IpAddress::V4(a)) => ipv4_network_contains(addr, prefix, a),
        _ => false,
    }
}

/// The IPv4 address of this node on the data network, chosen among the
/// interfaces of the machine (see `data_network_ip_spec`).
pub fn data_network_ip(sidecar: bool, subnet: Subnet, interfaces: &Vec<NetInterface>) -> (out: IpAddress)
    requires
        subnet_ok(subnet),
    ensures
        out == IpAddress::V4(data_network_ip_spec(sidecar, subnet, interface_views(interfaces@))),
{
    if !sidecar {
        return IpAddress::V4(LOCALHOST);
    }
    let ghost all = interface_views(interfaces@);
    let mut k: usize = 0;
    assert(all.subrange(0, all.len() as int) =~= all);
    while k < interfaces.len()
        invariant
            sidecar,
            subnet_ok(subnet),
            all == interface_views(interfaces@),
            k <= all.len(),
            first_in_subnet(all, subnet) == first_in_subnet(all.subrange(k as int, all.len() as int), subnet),
        decreases interfaces.len() - k,
    {
        let ghost rest = all.subrange(k as int, all.len() as int);
        proof {
            assert(rest.drop_first() =~= all.subrange(k + 1, all.len() as int));
            assert(rest[0] == all[k as int]);
        }
        let interface = &interfaces[k];
        assert(all[k as int] == (interface.is_up, interface.is_loopback, interface.ips@));
        if interface.is_up && !interface.is_loopback && interface.ips.len() > 0 {
            let ghost ips = interface.ips@;
            let mut j: usize = 0;
            assert(ips.subrange(0, ips.len() as int) =~= ips);
            while j < interface.ips.len()
                invariant
                    sidecar,
                    subnet_ok(subnet),
                    all == interface_views(interfaces@),
                    ips == interface.ips@,
                    k < all.len(),
                    rest == all.subrange(k as int, all.len() as int),
                    rest[0] == (true, false, ips),
                    ips.len() > 0,
                    first_in_subnet(all, subnet) == first_in_subnet(rest, subnet),
                    j <= ips.len(),
                    first_ip_in(ips, subnet) == first_ip_in(ips.subrange(j as int, ips.len() as int), subnet),
                decreases ips.len() - j,
            {
                let ghost irest = ips.subrange(j as int, ips.len() as int);
                proof {
                    assert(irest.drop_first() =~= ips.subrange(j + 1, ips.len() as int));
                    assert(irest[0] == ips[j as int]);
                }
                let ip = interface.ips[j];
                if let IpAddress::V4(a) = ip {
                    if contains_ip(subnet, ip) {
                        assert(first_ip_in(irest, subnet) == Some(a));
                        assert(first_in_subnet(rest, subnet) == Some(a));
                        return IpAddress::V4(a);
                    }
                }
                j = j + 1;
            }
            assert(ips.subrange(ips.len() as int, ips.len() as int) =~= Seq::<IpAddress>::empty());
        }
        k = k + 1;
    }
    assert(all.subrange(all.len() as int, all.len() as int) =~= Seq::<InterfaceView>::empty());
    IpAddress::V4(LOCALHOST)
}

/// The bytes of the peer id that a base58 text denotes, if it denotes one.
pub uninterp spec fn peer_id_from_text(text: Seq<char>) -> Option<Seq<u8>>;

/// The binary encoding of the multiaddress that a text denotes, if it
/// denotes one.
pub uninterp spec fn multiaddr_from_text(text: Seq<char>) -> Option<Seq<u8>>;

/// `text.parse::<libp2p::PeerId>()` (base58 decoding of a multihash), then
/// `PeerId::to_bytes`; the contract names the result.
#[verifier::external_body]
fn parse_peer_id(text: &Vec<char>) -> (out: Option<PeerId>)
    ensures
        match out {
            Some(p) => peer_id_from_text(text@) == Some(p@),
            None => peer_id_from_text(text@) is None,
        },
{
    let s: String = text.iter().collect();
    match s.parse::<libp2p::PeerId>() {
        Ok(p) => Some(PeerId { bytes: p.to_bytes() }),
        Err(_) => None,
    }
}

/// `text.parse::<libp2p::Multiaddr>()`, then `Multiaddr::to_vec`; the
/// contract names the result.
#[verifier::external_body]
fn parse_multiaddr(text: &Vec<char>) -> (out: Option<Vec<u8>>)
    ensures
        match out {
            Some(a) => multiaddr_from_text(text@) == Some(a@),
            None => multiaddr_from_text(text@) is None,
        },
{
    let s: String = text.iter().collect();
    match s.parse::<libp2p::Multiaddr>() {
        Ok(a) => Some(a.to_vec()),
        Err(_) => None,
    }
}

/// What an announcement `"<peer id> <multiaddress>"` gives: the peer and
/// its address, read from the first two space-separated parts; nothing when
/// there are fewer parts or a part does not parse.
pub open spec fn announcement_spec(text: Seq<char>) -> Option<(Seq<u8>, Seq<u8>)> {
    let parts = split_spec(text, ' ');
    if parts.len() < 2 {
        None
    } else {
        match (peer_id_from_text(parts[0]), multiaddr_from_text(parts[1])) {
            (Some(p), Some(a)) => Some((p, a)),
            _ => None,
        }
    }
}

/// Reads the peer and the address that another node announces.
pub fn parse_announcement(payload: &str) -> (out: Option<(PeerId, Vec<u8>)>)
    ensures
        match out {
            Some(x) => announcement_spec(payload@) == Some((x.0@, x.1@)),
            None => announcement_spec(payload@) is None,
        },
{
    let text = chars_of(payload);
    let parts = split_chars(&text, ' ');
    if parts.len() < 2 {
        return None;
    }
    proof {
        assert(views_of(parts@)[0] == parts@[0]@);
        assert(views_of(parts@)[1] == parts@[1]@);
    }
    let peer = parse_peer_id(&parts[0]);
    let addr = parse_multiaddr(&parts[1]);
    match (peer, addr) {
        (Some(p), Some(a)) => Some((p, a)),
        _ => None,
    }
}

/// The peers a node has heard of while waiting for the others to announce
/// themselves.
pub struct PeerCollector {
    local: PeerId,
    target: usize,
    peer_ids: Vec<PeerId>,
    addresses: Vec<Vec<u8>>,
}

/// The collector, by value: (own peer, how many others to wait for, peers
/// heard of, their addresses).
pub type CollectorView = (Seq<u8>, nat, Seq<Seq<u8>>, Seq<Seq<u8>>);

impl View for PeerCollector {
    type V = CollectorView;

    closed spec fn view(&self) -> CollectorView {
        (
            self.local@,
            self.target as nat,
            self.peer_ids@.map_values(|p: PeerId| p@),
            self.addresses@.map_values(|a: Vec<u8>| a@),
        )
    }
}

impl PeerCollector {
    /// A collector for node `local`, waiting for `target` other nodes.
    pub fn new(local: PeerId, target: usize) -> (out: PeerCollector)
        ensures
            out@ == (local@, target as nat, Seq::<Seq<u8>>::empty(), Seq::<Seq<u8>>::empty()),
    {
        let out = PeerCollector { local, target, peer_ids: Vec::new(), addresses: Vec::new() };
        proof {
            assert(out@.2 =~= Seq::<Seq<u8>>::empty());
            assert(out@.3 =~= Seq::<Seq<u8>>::empty());
        }
        out
    }

    /// Takes note of an announcement; its own announcement is ignored. Says
    /// whether enough other nodes have now been heard of.
    pub fn offer(&mut self, peer: PeerId, address: Vec<u8>) -> (done: bool)
        ensures
            if peer@ == old(self)@.0 {
                &&& final(self)@ == old(self)@
                &&& !done
            } else {
                &&& final(self)@ == (old(self)@.0, old(self)@.1, old(self)@.2.push(peer@), old(self)@.3.push(address@))
                &&& done == (final(self)@.2.len() >= old(self)@.1)
            },
    {
        if peer.same_as(&self.local) {
            return false;
        }
        let ghost v0 = self@;
        let ghost p = peer@;
        let ghost a = address@;
        self.peer_ids.push(peer);
        self.addresses.push(address);
        proof {
            assert(self@.2 =~= v0.2.push(p));
            assert(self@.3 =~= v0.3.push(a));
        }
        self.peer_ids.len() >= self.target
    }

    /// The peers heard of, with their addresses, in the order heard.
    pub fn into_peers(self) -> (out: (Vec<PeerId>, Vec<Vec<u8>>))
        ensures
            out.0@.map_values(|p: PeerId| p@) == self@.2,
            out.1@.map_values(|a: Vec<u8>| a@) == self@.3,
    {
        (self.peer_ids, self.addresses)
    }
}

/// The address at position `i` of interface `k` may serve on the data
/// network: the interface is up and not the loopback, and the address is an
/// IPv4 address in `subnet`.
pub open spec fn serves_in(interfaces: Seq<InterfaceView>, subnet: Subnet, k: int, i: int) -> bool {
    &&& 0 <= k < interfaces.len()
    &&& interfaces[k].0
    &&& !interfaces[k].1
    &&& 0 <= i < interfaces[k].2.len()
    &&& subnet_contains(subnet, interfaces[k].2[i])
}

proof fn lemma_first_ip_in(ips: Seq<IpAddress>, subnet: Subnet)
    ensures
        match first_ip_in(ips, subnet) {
            Some(a) => exists|i: int|
                0 <= i < ips.len() && ips[i] == IpAddress::V4(a) && subnet_contains(subnet, ips[i])
                    && forall|j: int| 0 <= j < i ==> !subnet_contains(subnet, #[trigger] ips[j]),
            None => forall|i: int| 0 <= i < ips.len() ==> !subnet_contains(subnet, #[trigger] ips[i]),
        },
    decreases ips.len(),
{
    if ips.len() > 0 {
        let t = ips.drop_first();
        lemma_first_ip_in(t, subnet);
        if subnet_contains(subnet, ips[0]) {
            assert(ips[0] is V4);
            assert(forall|j: int| 0 <= j < 0 ==> !subnet_contains(subnet, #[trigger] ips[j]));
        } else {
            match first_ip_in(t, subnet) {
                Some(a) => {
                    let i = choose|i: int|
                        0 <= i < t.len() && t[i] == IpAddress::V4(a) && subnet_contains(subnet, t[i])
                            && forall|j: int| 0 <= j < i ==> !subnet_contains(subnet, #[trigger] t[j]);
                    assert(ips[i + 1] == t[i]);
                    assert forall|j: int| 0 <= j < i + 1 implies !subnet_contains(subnet, #[trigger] ips[j]) by {
                        if j > 0 {
                            assert(ips[j] == t[j - 1]);
                        }
                    }
                },
                None => {
                    assert forall|i: int| 0 <= i < ips.len() implies !subnet_contains(subnet, #[trigger] ips[i]) by {
                        if i > 0 {
                            assert(ips[i] == t[i - 1]);
                        }
                    }
                },
            }
        }
    }
}

proof fn lemma_first_in_subnet(interfaces: Seq<InterfaceView>, subnet: Subnet)
    ensures
        match first_in_subnet(interfaces, subnet) {
            Some(a) => exists|k: int, i: int|
                serves_in(interfaces, subnet, k, i) && interfaces[k].2[i] == IpAddress::V4(a) && forall|k2: int, i2: int|
                    #[trigger] serves_in(interfaces, subnet, k2, i2) ==> k < k2 || (k == k2 && i <= i2),
            None => forall|k: int, i: int| !#[trigger] serves_in(interfaces, subnet, k, i),
        },
    decreases interfaces.len(),
{
    if interfaces.len() > 0 {
        let t = interfaces.drop_first();
        let f = interfaces[0];
        lemma_first_in_subnet(t, subnet);
        lemma_first_ip_in(f.2, subnet);
        assert forall|k: int, i: int| 1 <= k && #[trigger] serves_in(interfaces, subnet, k, i) implies serves_in(
            t,
            subnet,
            k - 1,
            i,
        ) by {
            assert(t[k - 1] == interfaces[k]);
        }
        assert forall|k: int, i: int| #[trigger] serves_in(t, subnet, k, i) implies serves_in(
            interfaces,
            subnet,
            k + 1,
            i,
        ) by {
            assert(t[k] == interfaces[k + 1]);
        }
        let here = if f.0 && !f.1 && f.2.len() > 0 { first_ip_in(f.2, subnet) } else { None };
        match here {
            Some(a) => {
                let i = choose|i: int|
                    0 <= i < f.2.len() && f.2[i] == IpAddress::V4(a) && subnet_contains(subnet, f.2[i])
                        && forall|j: int| 0 <= j < i ==> !subnet_contains(subnet, #[trigger] f.2[j]);
                assert(serves_in(interfaces, subnet, 0, i));
            },
            None => {
                assert forall|i: int| !#[trigger] serves_in(interfaces, subnet, 0, i) by {
                    if serves_in(interfaces, subnet, 0, i) {
                        assert(!subnet_contains(subnet, f.2[i]));
                    }
                }
                match first_in_subnet(t, subnet) {
                    Some(a) => {
                        let (k, i) = choose|k: int, i: int|
                            serves_in(t, subnet, k, i) && t[k].2[i] == IpAddress::V4(a) && forall|k2: int, i2: int|
                                #[trigger] serves_in(t, subnet, k2, i2) ==> k < k2 || (k == k2 && i <= i2);
                        assert(serves_in(interfaces, subnet, k + 1, i));
                        assert(interfaces[k + 1] == t[k]);
                        assert forall|k2: int, i2: int| #[trigger] serves_in(interfaces, subnet, k2, i2) implies k
                            + 1 < k2 || (k + 1 == k2 && i <= i2) by {
                            if k2 == 0 {
                                assert(!serves_in(interfaces, subnet, 0, i2));
                            } else {
                                assert(serves_in(t, subnet, k2 - 1, i2));
                            }
                        }
                    },
                    None => {
                        assert forall|k: int, i: int| !#[trigger] serves_in(interfaces, subnet, k, i) by {
                            if k >= 1 && serves_in(interfaces, subnet, k, i) {
                                assert(serves_in(t, subnet, k - 1, i));
                            }
                        }
                    },
                }
            },
        }
    }
}

/// Choosing the address on the data network: without a sidecar, the
/// loopback address; with one, when some interface that is up and not the
/// loopback has an IPv4 address in the subnet, the first such address of the
/// first such interface (so it is in the subnet); when none has, the
/// loopback address.
pub proof fn law_data_network_ip(sidecar: bool, subnet: Subnet, interfaces: Seq<InterfaceView>)
    ensures
        !sidecar ==> data_network_ip_spec(sidecar, subnet, interfaces) == LOCALHOST,
        sidecar && (exists|k: int, i: int| serves_in(interfaces, subnet, k, i)) ==> exists|k: int, i: int|
            serves_in(interfaces, subnet, k, i) && interfaces[k].2[i] == IpAddress::V4(
                data_network_ip_spec(sidecar, subnet, interfaces),
            ) && forall|k2: int, i2: int|
                #[trigger] serves_in(interfaces, subnet, k2, i2) ==> k < k2 || (k == k2 && i <= i2),
        sidecar && (forall|k: int, i: int| !#[trigger] serves_in(interfaces, subnet, k, i))
            ==> data_network_ip_spec(sidecar, subnet, interfaces) == LOCALHOST,
{
    lemma_first_in_subnet(interfaces, subnet);
}

/// `Rng::gen_range(0..count)` on `rng`: the contract states that the number
/// drawn is below `count`, and nothing of which one it is.
#[verifier::external_body]
fn draw_below(rng: &mut Xoshiro256StarStar, count: usize) -> (out: usize)
    requires
        count > 0,
    ensures
        out < count,
{
    rng.gen_range(0..count)
}

/// The index of the peer to connect to among `count` collected peers, drawn
/// from `rng`; there must be at least one peer.
pub fn random_peer_index(rng: &mut Xoshiro256StarStar, count: usize) -> (out: usize)
    requires
        count > 0,
    ensures
        out < count,
{
    draw_below(rng, count)
}

} // verus!
