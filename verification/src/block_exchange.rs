//! The want list and block store of the bitswap exchange.
//!
//! Peers are registered the first time they want a block; content
//! identifiers are kept once, the identifiers whose data is held first, then
//! those that are only wanted.
use vstd::prelude::*;
use crate::block::{Block, Cid, PeerId};
use crate::text::copy_bytes;

verus! {

/// A (peer, content identifier) want, by value.
pub type WantView = (Seq<u8>, Seq<u8>);

/// A block wanted by a peer and held by the exchange: (peer, cid, data).
pub type WantedBlockView = (Seq<u8>, Seq<u8>, Seq<u8>);

/// What an exchange holds, by value.
pub struct ExchangeView {
    /// Every peer that ever wanted a block, in the order they first did.
    pub peers: Seq<Seq<u8>>,
    /// The want list, in order.
    pub wants: Seq<WantView>,
    /// The data of the blocks held, by content identifier.
    pub store: Map<Seq<u8>, Seq<u8>>,
}

/// The value of `c` among (key, value) pairs; the last pair for `c` wins.
pub open spec fn lookup_pairs(s: Seq<(Seq<u8>, Seq<u8>)>, c: Seq<u8>) -> Option<Seq<u8>>
    decreases s.len(),
{
    if s.len() == 0 {
        None
    } else if s.last().0 == c {
        Some(s.last().1)
    } else {
        lookup_pairs(s.drop_last(), c)
    }
}

/// The map that (key, value) pairs define.
pub open spec fn pairs_to_map(s: Seq<(Seq<u8>, Seq<u8>)>) -> Map<Seq<u8>, Seq<u8>> {
    Map::new(|c: Seq<u8>| lookup_pairs(s, c) is Some, |c: Seq<u8>| lookup_pairs(s, c)->0)
}

/// The wants of `w` for another block than `c`, in order.
pub open spec fn wants_without_cid(w: Seq<WantView>, c: Seq<u8>) -> Seq<WantView>
    decreases w.len(),
{
    if w.len() == 0 {
        w
    } else {
        let rest = wants_without_cid(w.drop_last(), c);
        if w.last().1 == c {
            rest
        } else {
            rest.push(w.last())
        }
    }
}

/// The wants of `w` other than peer `p` wanting block `c`, in order.
pub open spec fn wants_without_pair(w: Seq<WantView>, p: Seq<u8>, c: Seq<u8>) -> Seq<WantView>
    decreases w.len(),
{
    if w.len() == 0 {
        w
    } else {
        let rest = wants_without_pair(w.drop_last(), p, c);
        if w.last().0 == p && w.last().1 == c {
            rest
        } else {
            rest.push(w.last())
        }
    }
}

/// The wants of peer `p`, in order.
pub open spec fn wants_of_peer(w: Seq<WantView>, p: Seq<u8>) -> Seq<WantView>
    decreases w.len(),
{
    if w.len() == 0 {
        w
    } else {
        let rest = wants_of_peer(w.drop_last(), p);
        if w.last().0 == p {
            rest.push(w.last())
        } else {
            rest
        }
    }
}

/// The peers that want block `c`, in want-list order (a peer that wants it
/// twice appears twice).
pub open spec fn peers_wanting(w: Seq<WantView>, c: Seq<u8>) -> Seq<Seq<u8>>
    decreases w.len(),
{
    if w.len() == 0 {
        Seq::empty()
    } else {
        let rest = peers_wanting(w.drop_last(), c);
        if w.last().1 == c {
            rest.push(w.last().0)
        } else {
            rest
        }
    }
}

/// The wants whose block is in `store`, with the block's data, in order.
pub open spec fn wanted_held(w: Seq<WantView>, store: Map<Seq<u8>, Seq<u8>>) -> Seq<WantedBlockView>
    decreases w.len(),
{
    if w.len() == 0 {
        Seq::empty()
    } else {
        let rest = wanted_held(w.drop_last(), store);
        let last = w.last();
        if store.contains_key(last.1) {
            rest.push((last.0, last.1, store[last.1]))
        } else {
            rest
        }
    }
}

/// The position of `p` among `peers` (its first occurrence), or the length
/// when it is not there.
pub open spec fn rank_of(peers: Seq<Seq<u8>>, p: Seq<u8>) -> int
    decreases peers.len(),
{
    if peers.len() == 0 {
        0
    } else if peers[0] == p {
        0
    } else {
        1 + rank_of(peers.drop_first(), p)
    }
}

/// No element occurs twice.
pub open spec fn no_duplicates(s: Seq<Seq<u8>>) -> bool {
    forall|i: int, j: int| 0 <= i < s.len() && 0 <= j < s.len() && i != j ==> s[i] != s[j]
}

impl ExchangeView {
    /// The exchange with no peer, no want and no block.
    pub open spec fn empty() -> ExchangeView {
        ExchangeView { peers: Seq::empty(), wants: Seq::empty(), store: Map::empty() }
    }

    /// Peer `p` wants block `c`: the want goes to the end of the list, and
    /// the peer is registered if it was not.
    pub open spec fn add_want(self, p: Seq<u8>, c: Seq<u8>) -> ExchangeView {
        ExchangeView {
            peers: if self.peers.contains(p) { self.peers } else { self.peers.push(p) },
            wants: self.wants.push((p, c)),
            store: self.store,
        }
    }

    /// Every want of block `c` is dropped.
    pub open spec fn remove_wants(self, c: Seq<u8>) -> ExchangeView {
        ExchangeView { wants: wants_without_cid(self.wants, c), ..self }
    }

    /// Every want of peer `p` for block `c` is dropped.
    pub open spec fn remove_want(self, p: Seq<u8>, c: Seq<u8>) -> ExchangeView {
        ExchangeView { wants: wants_without_pair(self.wants, p, c), ..self }
    }

    /// Whether adding a block with identifier `c` stores it: only when no
    /// block with that identifier is held.
    pub open spec fn adds_block(self, c: Seq<u8>) -> bool {
        !self.store.contains_key(c)
    }

    /// The exchange after a block `c` with `data` is offered to it.
    pub open spec fn add_block(self, c: Seq<u8>, data: Seq<u8>) -> ExchangeView {
        if self.adds_block(c) {
            ExchangeView { store: self.store.insert(c, data), ..self }
        } else {
            self
        }
    }

    /// The data held for block `c`.
    pub open spec fn get_block(self, c: Seq<u8>) -> Option<Seq<u8>> {
        if self.store.contains_key(c) {
            Some(self.store[c])
        } else {
            None
        }
    }

    /// The wants that can be served: those whose block is held.
    pub open spec fn wanted_blocks(self) -> Seq<WantedBlockView> {
        wanted_held(self.wants, self.store)
    }

    /// The peers that want block `c`.
    pub open spec fn who_want_block(self, c: Seq<u8>) -> Seq<Seq<u8>> {
        peers_wanting(self.wants, c)
    }

    /// The want list is ordered by the registration order of the peers.
    pub open spec fn wants_sorted(self) -> bool {
        forall|i: int, j: int|
            0 <= i <= j < self.wants.len() ==> rank_of(self.peers, #[trigger] self.wants[i].0)
                <= rank_of(self.peers, #[trigger] self.wants[j].0)
    }
}

/// The want list, the registered peers and the blocks held, of a node.
pub struct BlockExchange {
    peers: Vec<PeerId>,
    /// Position in `peers` of the peer of each want.
    peer_indices: Vec<usize>,
    /// Position in `cids` of the block of each want.
    cid_indices: Vec<usize>,
    /// First the identifiers with data, then, from `datums.len()` on, the
    /// identifiers that are only wanted.
    cids: Vec<Cid>,
    datums: Vec<Vec<u8>>,
}

/// The views of a sequence of peer ids.
pub open spec fn peer_views(s: Seq<PeerId>) -> Seq<Seq<u8>> {
    s.map_values(|p: PeerId| p@)
}

/// The views of a sequence of content identifiers.
pub open spec fn cid_views(s: Seq<Cid>) -> Seq<Seq<u8>> {
    s.map_values(|c: Cid| c@)
}

/// The wants that index vectors describe.
pub open spec fn wants_from(
    peers: Seq<Seq<u8>>,
    cids: Seq<Seq<u8>>,
    pi: Seq<usize>,
    ci: Seq<usize>,
) -> Seq<WantView> {
    Seq::new(pi.len(), |k: int| (peers[pi[k] as int], cids[ci[k] as int]))
}

/// The (identifier, data) pairs of the blocks held.
pub open spec fn held_from(cids: Seq<Seq<u8>>, datums: Seq<Vec<u8>>) -> Seq<(Seq<u8>, Seq<u8>)> {
    Seq::new(datums.len(), |i: int| (cids[i], datums[i]@))
}

/// Index vectors that point into `np` peers and `nc` identifiers.
pub open spec fn indices_ok(pi: Seq<usize>, ci: Seq<usize>, np: int, nc: int) -> bool {
    &&& pi.len() == ci.len()
    &&& forall|k: int| 0 <= k < pi.len() ==> (#[trigger] pi[k]) < np
    &&& forall|k: int| 0 <= k < ci.len() ==> (#[trigger] ci[k]) < nc
}

impl View for BlockExchange {
    type V = ExchangeView;

    closed spec fn view(&self) -> ExchangeView {
        ExchangeView {
            peers: peer_views(self.peers@),
            wants: wants_from(
                peer_views(self.peers@),
                cid_views(self.cids@),
                self.peer_indices@,
                self.cid_indices@,
            ),
            store: pairs_to_map(held_from(cid_views(self.cids@), self.datums@)),
        }
    }
}

impl BlockExchange {
    /// The internal invariant: indices in range, identifiers with data first,
    /// no peer and no identifier twice.
    pub closed spec fn wf(&self) -> bool {
        &&& indices_ok(
            self.peer_indices@,
            self.cid_indices@,
            self.peers@.len() as int,
            self.cids@.len() as int,
        )
        &&& self.datums@.len() <= self.cids@.len()
        &&& no_duplicates(peer_views(self.peers@))
        &&& no_duplicates(cid_views(self.cids@))
    }

    /// An exchange with no peer, no want and no block.
    pub fn new() -> (out: BlockExchange)
        ensures
            out.wf(),
            out@ == ExchangeView::empty(),
    {
        let out = BlockExchange {
            peers: Vec::new(),
            peer_indices: Vec::new(),
            cid_indices: Vec::new(),
            cids: Vec::new(),
            datums: Vec::new(),
        };
        proof {
            assert(out@.peers =~= Seq::<Seq<u8>>::empty());
            assert(out@.wants =~= Seq::<WantView>::empty());
            assert(out@.store =~= Map::<Seq<u8>, Seq<u8>>::empty());
        }
        out
    }

    /// The position of peer `p` among the registered peers.
    fn find_peer(&self, p: &PeerId) -> (out: Option<usize>)
        ensures
            match out {
                Some(i) => i < self.peers@.len() && peer_views(self.peers@)[i as int] == p@,
                None => !peer_views(self.peers@).contains(p@),
            },
    {
        let mut i: usize = 0;
        while i < self.peers.len()
            invariant
                i <= self.peers@.len(),
                forall|j: int| 0 <= j < i ==> peer_views(self.peers@)[j] != p@,
            decreases self.peers.len() - i,
        {
            if self.peers[i].same_as(p) {
                return Some(i);
            }
            i = i + 1;
        }
        None
    }

    /// The position of content identifier `c` among the known identifiers.
    fn find_cid(&self, c: &Cid) -> (out: Option<usize>)
        ensures
            match out {
                Some(i) => i < self.cids@.len() && cid_views(self.cids@)[i as int] == c@,
                None => !cid_views(self.cids@).contains(c@),
            },
    {
        let mut i: usize = 0;
        while i < self.cids.len()
            invariant
                i <= self.cids@.len(),
                forall|j: int| 0 <= j < i ==> cid_views(self.cids@)[j] != c@,
            decreases self.cids.len() - i,
        {
            if self.cids[i].same_as(c) {
                return Some(i);
            }
            i = i + 1;
        }
        None
    }

    /// Records that `peer_id` wants the block `cid`.
    pub fn add_want(&mut self, peer_id: PeerId, cid: Cid)
        requires
            old(self).wf(),
        ensures
            final(self).wf(),
            final(self)@ == old(self)@.add_want(peer_id@, cid@),
    {
        let ghost old_peers = peer_views(self.peers@);
        let ghost old_cids = cid_views(self.cids@);
        let ghost old_wants = self@.wants;
        let ghost old_held = held_from(old_cids, self.datums@);
        let peer_index = match self.find_peer(&peer_id) {
            Some(i) => i,
            None => {
                let i = self.peers.len();
                self.peers.push(peer_id);
                proof {
                    assert(peer_views(self.peers@) =~= old_peers.push(peer_id@));
                }
                i
            },
        };
        let cid_index = match self.find_cid(&cid) {
            Some(i) => i,
            None => {
                let i = self.cids.len();
                self.cids.push(cid);
                proof {
                    assert(cid_views(self.cids@) =~= old_cids.push(cid@));
                }
                i
            },
        };
        self.peer_indices.push(peer_index);
        self.cid_indices.push(cid_index);
        proof {
            let np = peer_views(self.peers@);
            let nc = cid_views(self.cids@);
            assert(forall|j: int| 0 <= j < old_peers.len() ==> np[j] == old_peers[j]);
            assert(forall|j: int| 0 <= j < old_cids.len() ==> nc[j] == old_cids[j]);
            assert(held_from(nc, self.datums@) =~= old_held);
            assert(self@.wants =~= old_wants.push((peer_id@, cid@)));
            if old_peers.contains(peer_id@) {
                assert(np =~= old_peers);
            }
        }
    }

    /// The block with identifier `cid`, if its data is held.
    pub fn get_block(&self, cid: &Cid) -> (out: Option<Block>)
        requires
            self.wf(),
        ensures
            match out {
                Some(b) => self@.get_block(cid@) == Some(b.data@) && b.cid@ == cid@,
                None => self@.get_block(cid@) is None,
            },
    {
        let ghost held = held_from(cid_views(self.cids@), self.datums@);
        let mut i: usize = 0;
        while i < self.datums.len()
            invariant
                self.wf(),
                held == held_from(cid_views(self.cids@), self.datums@),
                i <= self.datums@.len(),
                forall|j: int| 0 <= j < i ==> held[j].0 != cid@,
            decreases self.datums.len() - i,
        {
            if self.cids[i].same_as(cid) {
                proof {
                    lemma_lookup_distinct(held, i as int);
                }
                return Some(Block { cid: self.cids[i].duplicate(), data: copy_bytes(&self.datums[i]) });
            }
            i = i + 1;
        }
        proof {
            lemma_lookup_absent(held, cid@);
        }
        None
    }
}

/// Exchanges two entries of a vector of content identifiers.
fn swap_cids(v: &mut Vec<Cid>, a: usize, b: usize)
    requires
        a < old(v)@.len(),
        b < old(v)@.len(),
    ensures
        final(v)@ == old(v)@.update(a as int, old(v)@[b as int]).update(b as int, old(v)@[a as int]),
{
    let ghost v0 = v@;
    if a == b {
        assert(v@ =~= v0.update(a as int, v0[b as int]).update(b as int, v0[a as int]));
        return;
    }
    let mut slot = Cid { bytes: Vec::new() };
    v.set_and_swap(a, &mut slot);
    v.set_and_swap(b, &mut slot);
    v.set_and_swap(a, &mut slot);
    assert(v@ =~= v0.update(a as int, v0[b as int]).update(b as int, v0[a as int]));
}

/// Adding a pair at the end sets the value of its key.
pub proof fn lemma_pairs_push(s: Seq<(Seq<u8>, Seq<u8>)>, c: Seq<u8>, v: Seq<u8>)
    ensures
        pairs_to_map(s.push((c, v))) == pairs_to_map(s).insert(c, v),
{
    let t = s.push((c, v));
    assert(t.drop_last() =~= s);
    assert(pairs_to_map(t) =~= pairs_to_map(s).insert(c, v));
}

impl BlockExchange {
    /// Stores `block` if no block with its identifier is held; says whether
    /// it did.
    pub fn add_block(&mut self, block: Block) -> (added: bool)
        requires
            old(self).wf(),
        ensures
            final(self).wf(),
            added == old(self)@.adds_block(block.cid@),
            final(self)@ == old(self)@.add_block(block.cid@, block.data@),
    {
        let Block { cid, data } = block;
        let ghost c = cid@;
        let ghost old_cids = cid_views(self.cids@);
        let ghost old_held = held_from(old_cids, self.datums@);
        let ghost old_wants = self@.wants;
        let d = self.datums.len();
        let i = match self.find_cid(&cid) {
            Some(i) => {
                if i < d {
                    proof {
                        lemma_lookup_distinct(old_held, i as int);
                    }
                    return false;
                }
                i
            },
            None => {
                let n = self.cids.len();
                self.cids.push(cid);
                proof {
                    assert(cid_views(self.cids@) =~= old_cids.push(c));
                }
                n
            },
        };
        let ghost mid_cids = cid_views(self.cids@);
        let ghost mid_vec = self.cids@;
        proof {
            assert forall|j: int| 0 <= j < old_held.len() implies old_held[j].0 != c by {
                assert(old_held[j].0 == old_cids[j]);
                assert(mid_cids[j] == old_cids[j]);
            }
            lemma_lookup_absent(old_held, c);
        }
        swap_cids(&mut self.cids, i, d);
        let ghost ci0 = self.cid_indices@;
        let ghost swapped = self.cids@;
        let ghost peers0 = self.peers@;
        let ghost pi0 = self.peer_indices@;
        let ghost datums0 = self.datums@;
        let mut k: usize = 0;
        while k < self.cid_indices.len()
            invariant
                self.cids@ == swapped,
                self.peers@ == peers0,
                self.peer_indices@ == pi0,
                self.datums@ == datums0,
                self.cid_indices@.len() == ci0.len(),
                k <= ci0.len(),
                forall|j: int|
                    0 <= j < k ==> #[trigger] self.cid_indices@[j] == if ci0[j] == i {
                        d
                    } else if ci0[j] == d {
                        i
                    } else {
                        ci0[j]
                    },
                forall|j: int| k <= j < ci0.len() ==> #[trigger] self.cid_indices@[j] == ci0[j],
            decreases ci0.len() - k,
        {
            let v = self.cid_indices[k];
            if v == i {
                self.cid_indices.set(k, d);
            } else if v == d {
                self.cid_indices.set(k, i);
            }
            k = k + 1;
        }
        self.datums.push(data);
        proof {
            let nc = cid_views(self.cids@);
            assert(self.cids@ == mid_vec.update(i as int, mid_vec[d as int]).update(d as int, mid_vec[i as int]));
            assert forall|j: int| 0 <= j < nc.len() implies nc[j] == (if j == i {
                mid_cids[d as int]
            } else if j == d {
                mid_cids[i as int]
            } else {
                mid_cids[j]
            }) by {
                assert(nc[j] == self.cids@[j]@);
                assert(mid_cids[j] == mid_vec[j]@);
            }
            assert(nc.len() == mid_cids.len());
            assert forall|x: int, y: int| 0 <= x < nc.len() && 0 <= y < nc.len() && x != y implies nc[x] != nc[y] by {
                let ox = if x == i { d as int } else if x == d { i as int } else { x };
                let oy = if y == i { d as int } else if y == d { i as int } else { y };
                assert(nc[x] == mid_cids[ox]);
                assert(nc[y] == mid_cids[oy]);
            }
            assert(held_from(nc, self.datums@) =~= old_held.push((c, data@)));
            lemma_pairs_push(old_held, c, data@);
            assert(self@.wants =~= old_wants);
        }
        true
    }
}

impl BlockExchange {
    /// Drops every want of the block `cid`; the order of the others is kept.
    pub fn remove_wants(&mut self, cid: &Cid)
        requires
            old(self).wf(),
        ensures
            final(self).wf(),
            final(self)@ == old(self)@.remove_wants(cid@),
    {
        let ghost pv = peer_views(self.peers@);
        let ghost cv = cid_views(self.cids@);
        let ghost pi = self.peer_indices@;
        let ghost ci = self.cid_indices@;
        let ghost w = self@.wants;
        let mut new_pi: Vec<usize> = Vec::new();
        let mut new_ci: Vec<usize> = Vec::new();
        let mut k: usize = 0;
        proof {
            assert(wants_from(pv, cv, new_pi@, new_ci@) =~= wants_without_cid(w.take(0), cid@));
        }
        while k < self.cid_indices.len()
            invariant
                self.wf(),
                pv == peer_views(self.peers@),
                cv == cid_views(self.cids@),
                pi == self.peer_indices@,
                ci == self.cid_indices@,
                w == wants_from(pv, cv, pi, ci),
                k <= ci.len(),
                indices_ok(new_pi@, new_ci@, pv.len() as int, cv.len() as int),
                wants_from(pv, cv, new_pi@, new_ci@) == wants_without_cid(w.take(k as int), cid@),
            decreases ci.len() - k,
        {
            let ghost before = wants_from(pv, cv, new_pi@, new_ci@);
            proof {
                assert(w.take(k + 1).drop_last() =~= w.take(k as int));
                assert(w.take(k + 1).last() == w[k as int]);
            }
            let p_index = self.peer_indices[k];
            let c_index = self.cid_indices[k];
            if !self.cids[c_index].same_as(cid) {
                new_pi.push(p_index);
                new_ci.push(c_index);
                proof {
                    assert(wants_from(pv, cv, new_pi@, new_ci@) =~= before.push(w[k as int]));
                }
            }
            k = k + 1;
        }
        proof {
            assert(w.take(ci.len() as int) =~= w);
        }
        self.peer_indices = new_pi;
        self.cid_indices = new_ci;
    }

    /// Drops every want of peer `peer_id` for the block `cid`; the order of
    /// the others is kept.
    pub fn remove_want(&mut self, peer_id: &PeerId, cid: &Cid)
        requires
            old(self).wf(),
        ensures
            final(self).wf(),
            final(self)@ == old(self)@.remove_want(peer_id@, cid@),
    {
        let ghost pv = peer_views(self.peers@);
        let ghost cv = cid_views(self.cids@);
        let ghost pi = self.peer_indices@;
        let ghost ci = self.cid_indices@;
        let ghost w = self@.wants;
        let mut new_pi: Vec<usize> = Vec::new();
        let mut new_ci: Vec<usize> = Vec::new();
        let mut k: usize = 0;
        proof {
            assert(wants_from(pv, cv, new_pi@, new_ci@) =~= wants_without_pair(w.take(0), peer_id@, cid@));
        }
        while k < self.cid_indices.len()
            invariant
                self.wf(),
                pv == peer_views(self.peers@),
                cv == cid_views(self.cids@),
                pi == self.peer_indices@,
                ci == self.cid_indices@,
                w == wants_from(pv, cv, pi, ci),
                k <= ci.len(),
                indices_ok(new_pi@, new_ci@, pv.len() as int, cv.len() as int),
                wants_from(pv, cv, new_pi@, new_ci@) == wants_without_pair(w.take(k as int), peer_id@, cid@),
            decreases ci.len() - k,
        {
            let ghost before = wants_from(pv, cv, new_pi@, new_ci@);
            proof {
                assert(w.take(k + 1).drop_last() =~= w.take(k as int));
                assert(w.take(k + 1).last() == w[k as int]);
            }
            let p_index = self.peer_indices[k];
            let c_index = self.cid_indices[k];
            if !(self.peers[p_index].same_as(peer_id) && self.cids[c_index].same_as(cid)) {
                new_pi.push(p_index);
                new_ci.push(c_index);
                proof {
                    assert(wants_from(pv, cv, new_pi@, new_ci@) =~= before.push(w[k as int]));
                }
            }
            k = k + 1;
        }
        proof {
            assert(w.take(ci.len() as int) =~= w);
        }
        self.peer_indices = new_pi;
        self.cid_indices = new_ci;
    }
}

/// The views of (peer, block) pairs.
pub open spec fn wanted_views(s: Seq<(PeerId, Block)>) -> Seq<WantedBlockView> {
    s.map_values(|x: (PeerId, Block)| (x.0@, x.1.cid@, x.1.data@))
}

impl BlockExchange {
    /// The wants that can be served, in want-list order: each with its peer
    /// and the block.
    pub fn iter_wanted_blocks(&self) -> (out: Vec<(PeerId, Block)>)
        requires
            self.wf(),
        ensures
            wanted_views(out@) == self@.wanted_blocks(),
    {
        let ghost pv = peer_views(self.peers@);
        let ghost cv = cid_views(self.cids@);
        let ghost w = self@.wants;
        let ghost held = held_from(cv, self.datums@);
        let ghost store = self@.store;
        let mut out: Vec<(PeerId, Block)> = Vec::new();
        let mut k: usize = 0;
        while k < self.cid_indices.len()
            invariant
                self.wf(),
                pv == peer_views(self.peers@),
                cv == cid_views(self.cids@),
                w == wants_from(pv, cv, self.peer_indices@, self.cid_indices@),
                held == held_from(cv, self.datums@),
                store == pairs_to_map(held),
                k <= self.cid_indices@.len(),
                wanted_views(out@) == wanted_held(w.take(k as int), store),
            decreases self.cid_indices@.len() - k,
        {
            let ghost before = wanted_views(out@);
            proof {
                assert(w.take(k + 1).drop_last() =~= w.take(k as int));
                assert(w.take(k + 1).last() == w[k as int]);
            }
            let p_index = self.peer_indices[k];
            let c_index = self.cid_indices[k];
            if c_index < self.datums.len() {
                proof {
                    lemma_lookup_distinct(held, c_index as int);
                }
                let peer = self.peers[p_index].duplicate();
                let block = Block { cid: self.cids[c_index].duplicate(), data: copy_bytes(&self.datums[c_index]) };
                out.push((peer, block));
                proof {
                    assert(wanted_views(out@) =~= before.push((w[k as int].0, w[k as int].1, store[w[k as int].1])));
                }
            } else {
                proof {
                    assert forall|j: int| 0 <= j < held.len() implies held[j].0 != cv[c_index as int] by {
                        assert(held[j].0 == cv[j]);
                    }
                    lemma_lookup_absent(held, cv[c_index as int]);
                }
            }
            k = k + 1;
        }
        proof {
            assert(w.take(w.len() as int) =~= w);
        }
        out
    }

    /// The peers that want the block `cid`, in want-list order.
    pub fn iter_who_want_block(&self, cid: Cid) -> (out: Vec<PeerId>)
        requires
            self.wf(),
        ensures
            peer_views(out@) == self@.who_want_block(cid@),
    {
        let ghost pv = peer_views(self.peers@);
        let ghost cv = cid_views(self.cids@);
        let ghost w = self@.wants;
        let mut out: Vec<PeerId> = Vec::new();
        let mut k: usize = 0;
        while k < self.cid_indices.len()
            invariant
                self.wf(),
                pv == peer_views(self.peers@),
                cv == cid_views(self.cids@),
                w == wants_from(pv, cv, self.peer_indices@, self.cid_indices@),
                k <= self.cid_indices@.len(),
                peer_views(out@) == peers_wanting(w.take(k as int), cid@),
            decreases self.cid_indices@.len() - k,
        {
            let ghost before = peer_views(out@);
            proof {
                assert(w.take(k + 1).drop_last() =~= w.take(k as int));
                assert(w.take(k + 1).last() == w[k as int]);
            }
            let p_index = self.peer_indices[k];
            let c_index = self.cid_indices[k];
            if self.cids[c_index].same_as(&cid) {
                out.push(self.peers[p_index].duplicate());
                proof {
                    assert(peer_views(out@) =~= before.push(w[k as int].0));
                }
            }
            k = k + 1;
        }
        proof {
            assert(w.take(w.len() as int) =~= w);
        }
        out
    }
}

/// `s` with the elements at `j - 1` and `j` exchanged.
pub open spec fn swap_adjacent<A>(s: Seq<A>, j: int) -> Seq<A> {
    s.update(j - 1, s[j]).update(j, s[j - 1])
}

/// The values of `s` between `lo` and `hi` are in non-decreasing order.
pub open spec fn sorted_range(s: Seq<usize>, lo: int, hi: int) -> bool {
    forall|a: int, b: int| lo <= a <= b < hi ==> s[a] <= s[b]
}

/// In a sequence without duplicates, the rank of an element is its position.
pub proof fn lemma_rank_of_distinct(peers: Seq<Seq<u8>>, r: int)
    requires
        no_duplicates(peers),
        0 <= r < peers.len(),
    ensures
        rank_of(peers, peers[r]) == r,
    decreases peers.len(),
{
    if r > 0 {
        let t = peers.drop_first();
        assert(peers[0] != peers[r]);
        assert(t[r - 1] == peers[r]);
        assert(no_duplicates(t)) by {
            assert forall|i: int, j: int| 0 <= i < t.len() && 0 <= j < t.len() && i != j implies t[i] != t[j] by {
                assert(t[i] == peers[i + 1]);
                assert(t[j] == peers[j + 1]);
            }
        }
        lemma_rank_of_distinct(t, r - 1);
    }
}

/// Exchanging two neighbouring wants of different peers keeps the wants of
/// every peer in their order.
pub proof fn lemma_swap_keeps_peer_wants(s: Seq<WantView>, j: int, p: Seq<u8>)
    requires
        1 <= j < s.len(),
        s[j - 1].0 != s[j].0,
    ensures
        wants_of_peer(swap_adjacent(s, j), p) == wants_of_peer(s, p),
    decreases s.len(),
{
    let t = swap_adjacent(s, j);
    if j < s.len() - 1 {
        assert(t.drop_last() =~= swap_adjacent(s.drop_last(), j));
        assert(t.last() == s.last());
        lemma_swap_keeps_peer_wants(s.drop_last(), j, p);
    } else {
        let u = s.drop_last().drop_last();
        assert(s.drop_last() =~= u.push(s[j - 1]));
        assert(t.drop_last() =~= u.push(s[j]));
        assert(u.push(s[j - 1]).drop_last() =~= u);
        assert(u.push(s[j]).drop_last() =~= u);
        assert(t.last() == s[j - 1]);
        assert(s.last() == s[j]);
        reveal_with_fuel(wants_of_peer, 3);
        if s[j].0 == p {
            assert(wants_of_peer(s, p) =~= wants_of_peer(u, p).push(s[j]));
            assert(wants_of_peer(t, p) =~= wants_of_peer(u, p).push(s[j]));
        } else if s[j - 1].0 == p {
            assert(wants_of_peer(s, p) =~= wants_of_peer(u, p).push(s[j - 1]));
            assert(wants_of_peer(t, p) =~= wants_of_peer(u, p).push(s[j - 1]));
        } else {
            assert(wants_of_peer(s, p) =~= wants_of_peer(u, p));
            assert(wants_of_peer(t, p) =~= wants_of_peer(u, p));
        }
    }
}

impl BlockExchange {
    /// Orders the want list by the order in which the peers first wanted a
    /// block (stable insertion sort: the wants of each peer keep their order).
    pub fn insertion_sort_wants(&mut self)
        requires
            old(self).wf(),
        ensures
            final(self).wf(),
            final(self)@.peers == old(self)@.peers,
            final(self)@.store == old(self)@.store,
            final(self)@.wants.len() == old(self)@.wants.len(),
            final(self)@.wants_sorted(),
            forall|p: Seq<u8>| wants_of_peer(final(self)@.wants, p) == wants_of_peer(old(self)@.wants, p),
    {
        let ghost pv = peer_views(self.peers@);
        let ghost cv = cid_views(self.cids@);
        let ghost w0 = self@.wants;
        let ghost store0 = self@.store;
        let n = self.peer_indices.len();
        let mut i: usize = 1;
        while i < n
            invariant
                self.wf(),
                pv == peer_views(self.peers@),
                cv == cid_views(self.cids@),
                store0 == self@.store,
                n == self.peer_indices@.len(),
                1 <= i,
                i <= n || n == 0,
                sorted_range(self.peer_indices@, 0, i as int),
                forall|p: Seq<u8>| wants_of_peer(self@.wants, p) == wants_of_peer(w0, p),
                self@.wants.len() == w0.len(),
            decreases n - i,
        {
            let mut j: usize = i;
            while j > 0 && self.peer_indices[j - 1] > self.peer_indices[j]
                invariant
                    self.wf(),
                    pv == peer_views(self.peers@),
                    cv == cid_views(self.cids@),
                    store0 == self@.store,
                    n == self.peer_indices@.len(),
                    j <= i < n,
                    sorted_range(self.peer_indices@, 0, j as int),
                    sorted_range(self.peer_indices@, j + 1, i + 1),
                    forall|a: int, b: int|
                        0 <= a < j < b <= i ==> self.peer_indices@[a] <= self.peer_indices@[b],
                    forall|b: int| j < b <= i ==> self.peer_indices@[j as int] < self.peer_indices@[b],
                    forall|p: Seq<u8>| wants_of_peer(self@.wants, p) == wants_of_peer(w0, p),
                    self@.wants.len() == w0.len(),
                decreases j,
            {
                let ghost before = self@.wants;
                let ghost pi_before = self.peer_indices@;
                let a = self.peer_indices[j];
                let b = self.peer_indices[j - 1];
                let c = self.cid_indices[j];
                let d = self.cid_indices[j - 1];
                self.peer_indices.set(j, b);
                self.peer_indices.set(j - 1, a);
                self.cid_indices.set(j, d);
                self.cid_indices.set(j - 1, c);
                proof {
                    assert(self@.wants =~= swap_adjacent(before, j as int));
                    lemma_rank_of_distinct(pv, a as int);
                    lemma_rank_of_distinct(pv, b as int);
                    assert(before[j - 1].0 != before[j as int].0);
                    assert forall|p: Seq<u8>| wants_of_peer(self@.wants, p) == wants_of_peer(w0, p) by {
                        lemma_swap_keeps_peer_wants(before, j as int, p);
                    }
                    assert(self.peer_indices@ == swap_adjacent(pi_before, j as int));
                }
                j = j - 1;
            }
            i = i + 1;
        }
        proof {
            let w = self@.wants;
            let pi = self.peer_indices@;
            assert forall|x: int, y: int| 0 <= x <= y < w.len() implies rank_of(self@.peers, #[trigger] w[x].0)
                <= rank_of(self@.peers, #[trigger] w[y].0) by {
                lemma_rank_of_distinct(pv, pi[x] as int);
                lemma_rank_of_distinct(pv, pi[y] as int);
            }
        }
    }
}

/// The keys of the pairs are distinct.
pub open spec fn distinct_keys(s: Seq<(Seq<u8>, Seq<u8>)>) -> bool {
    forall|i: int, j: int| 0 <= i < s.len() && 0 <= j < s.len() && i != j ==> s[i].0 != s[j].0
}

/// With distinct keys, the value of a key is the one of its pair.
proof fn lemma_lookup_distinct(s: Seq<(Seq<u8>, Seq<u8>)>, i: int)
    requires
        distinct_keys(s),
        0 <= i < s.len(),
    ensures
        lookup_pairs(s, s[i].0) == Some(s[i].1),
    decreases s.len(),
{
    if i < s.len() - 1 {
        let t = s.drop_last();
        assert(s.last().0 != s[i].0);
        assert(t[i] == s[i]);
        lemma_lookup_distinct(t, i);
    }
}

/// A key that no pair has has no value.
pub proof fn lemma_lookup_absent(s: Seq<(Seq<u8>, Seq<u8>)>, c: Seq<u8>)
    requires
        forall|j: int| 0 <= j < s.len() ==> s[j].0 != c,
    ensures
        lookup_pairs(s, c) is None,
    decreases s.len(),
{
    if s.len() > 0 {
        let t = s.drop_last();
        assert forall|j: int| 0 <= j < t.len() implies t[j].0 != c by {
            assert(t[j] == s[j]);
        }
        lemma_lookup_absent(t, c);
    }
}

} // verus!

verus! {

impl Default for BlockExchange {
    fn default() -> (out: BlockExchange)
        ensures
            out.wf(),
            out@ == ExchangeView::empty(),
    {
        BlockExchange::new()
    }
}

/// A block added to the exchange is found again: its data if no block with
/// its identifier was held, the data already held otherwise.
pub proof fn law_add_then_get(v: ExchangeView, c: Seq<u8>, d: Seq<u8>)
    ensures
        v.add_block(c, d).get_block(c) is Some,
        v.adds_block(c) ==> v.add_block(c, d).get_block(c) == Some(d),
        !v.adds_block(c) ==> v.add_block(c, d).get_block(c) == v.get_block(c),
{
}

/// Adding a block whose identifier is already held is refused and changes
/// nothing, whatever its data.
pub proof fn law_add_block_once(v: ExchangeView, c: Seq<u8>, d: Seq<u8>, d2: Seq<u8>)
    ensures
        !v.add_block(c, d).adds_block(c),
        v.add_block(c, d).add_block(c, d2) == v.add_block(c, d),
{
}

/// Adding a block never changes the want list or the registered peers, and
/// the other blocks stay as they were.
pub proof fn law_add_block_keeps_wants(v: ExchangeView, c: Seq<u8>, d: Seq<u8>, other: Seq<u8>)
    requires
        other != c,
    ensures
        v.add_block(c, d).wants == v.wants,
        v.add_block(c, d).peers == v.peers,
        v.add_block(c, d).get_block(other) == v.get_block(other),
{
}

/// Changes of the want list never change the blocks held.
pub proof fn law_wants_keep_store(v: ExchangeView, p: Seq<u8>, c: Seq<u8>)
    ensures
        v.add_want(p, c).store == v.store,
        v.remove_want(p, c).store == v.store,
        v.remove_wants(c).store == v.store,
{
}

/// Wanting a block and then cancelling that want leaves the want list as
/// cancelling alone would.
pub proof fn law_want_then_cancel(v: ExchangeView, p: Seq<u8>, c: Seq<u8>)
    ensures
        v.add_want(p, c).remove_want(p, c).wants == v.remove_want(p, c).wants,
{
    let w = v.wants.push((p, c));
    assert(w.drop_last() =~= v.wants);
}

/// After a cancel, the peer no longer wants that block.
pub proof fn law_cancel_removes(v: ExchangeView, p: Seq<u8>, c: Seq<u8>)
    ensures
        !v.remove_want(p, c).wants.contains((p, c)),
{
    lemma_without_pair_excludes(v.wants, p, c);
}

/// After all wants of a block are removed, no peer wants it.
pub proof fn law_remove_wants_clears(v: ExchangeView, c: Seq<u8>)
    ensures
        v.remove_wants(c).who_want_block(c) == Seq::<Seq<u8>>::empty(),
{
    lemma_without_cid_no_wanters(v.wants, c);
}

/// A new want of a block makes its peer the last of those who want it.
pub proof fn law_add_want_who_want(v: ExchangeView, p: Seq<u8>, c: Seq<u8>)
    ensures
        v.add_want(p, c).who_want_block(c) == v.who_want_block(c).push(p),
{
    let w = v.wants.push((p, c));
    assert(w.drop_last() =~= v.wants);
}

/// Every block that can be served is wanted by its peer and held with that
/// data.
pub proof fn law_wanted_blocks_are_wanted_and_held(v: ExchangeView, i: int)
    requires
        0 <= i < v.wanted_blocks().len(),
    ensures
        v.wants.contains((v.wanted_blocks()[i].0, v.wanted_blocks()[i].1)),
        v.get_block(v.wanted_blocks()[i].1) == Some(v.wanted_blocks()[i].2),
{
    lemma_wanted_held_sound(v.wants, v.store, i);
}

proof fn lemma_without_pair_excludes(w: Seq<WantView>, p: Seq<u8>, c: Seq<u8>)
    ensures
        !wants_without_pair(w, p, c).contains((p, c)),
    decreases w.len(),
{
    if w.len() > 0 {
        lemma_without_pair_excludes(w.drop_last(), p, c);
        let rest = wants_without_pair(w.drop_last(), p, c);
        if !(w.last().0 == p && w.last().1 == c) {
            assert forall|k: int| 0 <= k < rest.len() + 1 implies rest.push(w.last())[k] != (p, c) by {
                if k < rest.len() {
                    assert(rest.push(w.last())[k] == rest[k]);
                }
            }
        }
    }
}

proof fn lemma_without_cid_no_wanters(w: Seq<WantView>, c: Seq<u8>)
    ensures
        peers_wanting(wants_without_cid(w, c), c) == Seq::<Seq<u8>>::empty(),
    decreases w.len(),
{
    if w.len() > 0 {
        lemma_without_cid_no_wanters(w.drop_last(), c);
        let rest = wants_without_cid(w.drop_last(), c);
        if w.last().1 != c {
            assert(rest.push(w.last()).drop_last() =~= rest);
        }
    }
}

proof fn lemma_wanted_held_sound(w: Seq<WantView>, store: Map<Seq<u8>, Seq<u8>>, i: int)
    requires
        0 <= i < wanted_held(w, store).len(),
    ensures
        w.contains((wanted_held(w, store)[i].0, wanted_held(w, store)[i].1)),
        store.contains_key(wanted_held(w, store)[i].1),
        store[wanted_held(w, store)[i].1] == wanted_held(w, store)[i].2,
    decreases w.len(),
{
    let rest = wanted_held(w.drop_last(), store);
    if i < rest.len() {
        if store.contains_key(w.last().1) {
            assert(wanted_held(w, store)[i] == rest[i]);
        }
        lemma_wanted_held_sound(w.drop_last(), store, i);
        let k = choose|k: int| 0 <= k < w.drop_last().len() && w.drop_last()[k] == (rest[i].0, rest[i].1);
        assert(w[k] == w.drop_last()[k]);
    } else {
        assert(w[w.len() - 1] == w.last());
    }
}

/// A peer that occurs has a rank below the length, at which it stands.
proof fn lemma_rank_of_contains(peers: Seq<Seq<u8>>, p: Seq<u8>)
    requires
        peers.contains(p),
    ensures
        0 <= rank_of(peers, p) < peers.len(),
        peers[rank_of(peers, p)] == p,
    decreases peers.len(),
{
    if peers[0] != p {
        let t = peers.drop_first();
        let k = choose|k: int| 0 <= k < peers.len() && peers[k] == p;
        assert(t[k - 1] == p);
        lemma_rank_of_contains(t, p);
    }
}

/// A peer with wants has a want in the list.
proof fn lemma_wants_of_peer_nonempty(w: Seq<WantView>, p: Seq<u8>)
    requires
        wants_of_peer(w, p).len() > 0,
    ensures
        exists|i: int| 0 <= i < w.len() && (#[trigger] w[i]).0 == p,
    decreases w.len(),
{
    if w.last().0 == p {
        assert(w[w.len() - 1].0 == p);
    } else {
        lemma_wants_of_peer_nonempty(w.drop_last(), p);
        let i = choose|i: int| 0 <= i < w.drop_last().len() && (#[trigger] w.drop_last()[i]).0 == p;
        assert(w[i] == w.drop_last()[i]);
    }
}

/// A want list ordered by the ranks of its peers among `peers`, every peer
/// of which is registered.
pub open spec fn sorted_by_rank(peers: Seq<Seq<u8>>, w: Seq<WantView>) -> bool {
    &&& forall|i: int| 0 <= i < w.len() ==> peers.contains(#[trigger] w[i].0)
    &&& forall|i: int, j: int|
        0 <= i <= j < w.len() ==> rank_of(peers, #[trigger] w[i].0) <= rank_of(peers, #[trigger] w[j].0)
}

/// The order of the wants after sorting is determined: two lists ordered
/// by the registration order of distinct peers, in which every peer has the
/// same wants in the same order, are the same list. Sorting a sorted list
/// therefore changes nothing.
pub proof fn law_sorted_wants_unique(peers: Seq<Seq<u8>>, w1: Seq<WantView>, w2: Seq<WantView>)
    requires
        no_duplicates(peers),
        sorted_by_rank(peers, w1),
        sorted_by_rank(peers, w2),
        forall|p: Seq<u8>| wants_of_peer(w1, p) == wants_of_peer(w2, p),
    ensures
        w1 == w2,
    decreases w1.len() + w2.len(),
{
    if w1.len() == 0 && w2.len() == 0 {
        assert(w1 =~= w2);
    } else if w1.len() == 0 {
        let p = w2.last().0;
        assert(wants_of_peer(w2, p).len() > 0);
        assert(wants_of_peer(w1, p).len() == 0);
    } else if w2.len() == 0 {
        let p = w1.last().0;
        assert(wants_of_peer(w1, p).len() > 0);
        assert(wants_of_peer(w2, p).len() == 0);
    } else {
        let a = w1.last();
        let b = w2.last();
        assert(w1[w1.len() - 1] == a);
        assert(w2[w2.len() - 1] == b);
        let ra = rank_of(peers, a.0);
        let rb = rank_of(peers, b.0);
        if ra < rb {
            assert(wants_of_peer(w2, b.0).len() > 0);
            lemma_wants_of_peer_nonempty(w1, b.0);
            let i = choose|i: int| 0 <= i < w1.len() && (#[trigger] w1[i]).0 == b.0;
            assert(rank_of(peers, w1[i].0) <= rank_of(peers, w1[w1.len() - 1].0));
        } else if rb < ra {
            assert(wants_of_peer(w1, a.0).len() > 0);
            lemma_wants_of_peer_nonempty(w2, a.0);
            let i = choose|i: int| 0 <= i < w2.len() && (#[trigger] w2[i]).0 == a.0;
            assert(rank_of(peers, w2[i].0) <= rank_of(peers, w2[w2.len() - 1].0));
        } else {
            lemma_rank_of_contains(peers, a.0);
            lemma_rank_of_contains(peers, b.0);
            assert(a.0 == b.0);
            let p = a.0;
            assert(wants_of_peer(w1, p) == wants_of_peer(w1.drop_last(), p).push(a));
            assert(wants_of_peer(w2, p) == wants_of_peer(w2.drop_last(), p).push(b));
            assert(a == wants_of_peer(w1, p).last());
            assert(b == wants_of_peer(w2, p).last());
            let t1 = w1.drop_last();
            let t2 = w2.drop_last();
            assert forall|q: Seq<u8>| wants_of_peer(t1, q) == wants_of_peer(t2, q) by {
                if q == p {
                    assert(wants_of_peer(t1, q) =~= wants_of_peer(w1, q).drop_last());
                    assert(wants_of_peer(t2, q) =~= wants_of_peer(w2, q).drop_last());
                } else {
                    assert(wants_of_peer(w1, q) == wants_of_peer(t1, q));
                    assert(wants_of_peer(w2, q) == wants_of_peer(t2, q));
                }
            }
            assert(sorted_by_rank(peers, t1)) by {
                assert forall|i: int| 0 <= i < t1.len() implies peers.contains(#[trigger] t1[i].0) by {
                    assert(t1[i] == w1[i]);
                }
                assert forall|i: int, j: int| 0 <= i <= j < t1.len() implies rank_of(peers, #[trigger] t1[i].0)
                    <= rank_of(peers, #[trigger] t1[j].0) by {
                    assert(t1[i] == w1[i] && t1[j] == w1[j]);
                }
            }
            assert(sorted_by_rank(peers, t2)) by {
                assert forall|i: int| 0 <= i < t2.len() implies peers.contains(#[trigger] t2[i].0) by {
                    assert(t2[i] == w2[i]);
                }
                assert forall|i: int, j: int| 0 <= i <= j < t2.len() implies rank_of(peers, #[trigger] t2[i].0)
                    <= rank_of(peers, #[trigger] t2[j].0) by {
                    assert(t2[i] == w2[i] && t2[j] == w2[j]);
                }
            }
            law_sorted_wants_unique(peers, t1, t2);
            assert(w1 =~= t1.push(a));
            assert(w2 =~= t2.push(b));
        }
    }
}

/// In a well-formed exchange no peer is registered twice and every want is
/// from a registered peer; with `law_sorted_wants_unique`, the want list
/// that `insertion_sort_wants` leaves is the only sorted list with the same
/// wants per peer.
pub proof fn law_registered_peers(exchange: &BlockExchange)
    requires
        exchange.wf(),
    ensures
        no_duplicates(exchange@.peers),
        forall|i: int| 0 <= i < exchange@.wants.len() ==> exchange@.peers.contains(#[trigger] exchange@.wants[i].0),
{
    assert forall|i: int| 0 <= i < exchange@.wants.len() implies exchange@.peers.contains(#[trigger] exchange@.wants[i].0) by {
        let k = exchange.peer_indices@[i] as int;
        assert(exchange@.peers[k] == exchange@.wants[i].0);
    }
}

impl BlockExchange {
    /// The content identifiers the exchange knows, in the order it keeps
    /// them: first those whose block is held, then those only wanted.
    pub closed spec fn known_cids(&self) -> Seq<Seq<u8>> {
        cid_views(self.cids@)
    }

    /// How many of the first `known_cids` have their block held.
    pub closed spec fn held_count(&self) -> nat {
        self.datums@.len()
    }

    /// For each want, in order, the position of its peer among the peers.
    pub closed spec fn want_peer_positions(&self) -> Seq<usize> {
        self.peer_indices@
    }

    /// For each want, in order, the position of its identifier in `known_cids`.
    pub closed spec fn want_cid_positions(&self) -> Seq<usize> {
        self.cid_indices@
    }
}

/// The layout of a well-formed exchange, which every operation keeps: no
/// identifier is kept twice; the identifiers whose block is held come
/// first, and exactly their blocks are held, each under its own identifier;
/// every want points at its peer and at its identifier.
pub proof fn law_block_layout(exchange: &BlockExchange)
    requires
        exchange.wf(),
    ensures
        no_duplicates(exchange.known_cids()),
        exchange.held_count() <= exchange.known_cids().len(),
        exchange.want_peer_positions().len() == exchange@.wants.len(),
        exchange.want_cid_positions().len() == exchange@.wants.len(),
        forall|k: int|
            0 <= k < exchange@.wants.len() ==> {
                &&& (#[trigger] exchange.want_peer_positions()[k]) < exchange@.peers.len()
                &&& exchange@.peers[exchange.want_peer_positions()[k] as int] == exchange@.wants[k].0
                &&& exchange.want_cid_positions()[k] < exchange.known_cids().len()
                &&& exchange.known_cids()[exchange.want_cid_positions()[k] as int] == exchange@.wants[k].1
            },
        forall|c: Seq<u8>|
            #[trigger] exchange@.store.contains_key(c) <==> exists|i: int|
                0 <= i < exchange.held_count() && exchange.known_cids()[i] == c,
{
    let pairs = held_from(cid_views(exchange.cids@), exchange.datums@);
    assert(distinct_keys(pairs));
    assert forall|c: Seq<u8>|
        #[trigger] exchange@.store.contains_key(c) <==> exists|i: int|
            0 <= i < exchange.held_count() && exchange.known_cids()[i] == c by {
        if exists|i: int| 0 <= i < exchange.held_count() && exchange.known_cids()[i] == c {
            let i = choose|i: int| 0 <= i < exchange.held_count() && exchange.known_cids()[i] == c;
            assert(pairs[i].0 == c);
            lemma_lookup_distinct(pairs, i);
        } else {
            assert forall|j: int| 0 <= j < pairs.len() implies pairs[j].0 != c by {
                assert(exchange.known_cids()[j] == pairs[j].0);
            }
            lemma_lookup_absent(pairs, c);
        }
    }
}

} // verus!
