//! The decisions of the node's IPFS background service: which block to send
//! to which peer, and which local requests a received block answers.
//!
//! Blocks are served first come, first served, and only a few at a time: a
//! (peer, block) pair stays pending from the moment it is sent until the peer
//! cancels its want, and no more than `max_concurrent_send` pairs are ever
//! pending.
use vstd::prelude::*;
use crate::block::{Block, Cid, PeerId};
use crate::seqs::{
    lemma_push_unique, lemma_remove_unique, lemma_without_absent, lemma_without_keeps,
    lemma_without_unique, unique, without,
};
use crate::block_exchange::{
    BlockExchange, ExchangeView, WantedBlockView, wanted_views,
};

verus! {

/// A (peer, content identifier) pair, by value.
pub type PairView = (Seq<u8>, Seq<u8>);

/// What the bitswap protocol reports.
pub enum BitswapEvent {
    /// A peer sent us a block.
    ReceivedBlock(PeerId, Block),
    /// A peer wants a block, with a priority.
    ReceivedWant(PeerId, Cid, i32),
    /// A peer no longer wants a block.
    ReceivedCancel(PeerId, Cid),
}

/// What the service has to do after an event.
pub struct BitswapActions {
    /// The block that answers the local request waiting for it.
    pub deliver: Option<Block>,
    /// The block to send, and the peer to send it to.
    pub send: Option<(PeerId, Block)>,
}

/// The state of the service, by value.
pub struct ServiceView {
    pub exchange: ExchangeView,
    /// The blocks that local requests wait for.
    pub pending_get: Seq<Seq<u8>>,
    /// The (peer, block) pairs being sent.
    pub pending_send: Seq<PairView>,
    pub max_concurrent_send: nat,
}

/// The first wanted block whose (peer, block) pair is not being sent.
pub open spec fn first_unsent(wanted: Seq<WantedBlockView>, pending: Seq<PairView>) -> Option<WantedBlockView>
    decreases wanted.len(),
{
    if wanted.len() == 0 {
        None
    } else if !pending.contains((wanted[0].0, wanted[0].1)) {
        Some(wanted[0])
    } else {
        first_unsent(wanted.drop_first(), pending)
    }
}

/// One sending step: the first wanted block not already being sent to its
/// peer is sent, and its pair becomes pending.
pub open spec fn send_step(exchange: ExchangeView, pending: Seq<PairView>) -> (Seq<PairView>, Option<WantedBlockView>) {
    match first_unsent(exchange.wanted_blocks(), pending) {
        Some(x) => (pending.push((x.0, x.1)), Some(x)),
        None => (pending, None),
    }
}

/// The state and the actions after an event, by value: (state, block
/// delivered locally as (cid, data), block sent as (peer, cid, data)).
pub open spec fn bitswap_model(s: ServiceView, e: BitswapEvent) -> (ServiceView, Option<PairView>, Option<WantedBlockView>) {
    match e {
        BitswapEvent::ReceivedBlock(_peer, block) => {
            let c = block.cid@;
            let exchange = s.exchange.add_block(c, block.data@);
            let deliver = if s.pending_get.contains(c) { Some((c, block.data@)) } else { None };
            let pending_get = without(s.pending_get, c);
            if s.pending_send.len() >= s.max_concurrent_send {
                (ServiceView { exchange, pending_get, ..s }, deliver, None)
            } else {
                let step = send_step(exchange, s.pending_send);
                (ServiceView { exchange, pending_get, pending_send: step.0, ..s }, deliver, step.1)
            }
        },
        BitswapEvent::ReceivedWant(peer, cid, _priority) => {
            let exchange = s.exchange.add_want(peer@, cid@);
            if s.pending_send.len() >= s.max_concurrent_send {
                (ServiceView { exchange, ..s }, None, None)
            } else {
                let step = send_step(exchange, s.pending_send);
                (ServiceView { exchange, pending_send: step.0, ..s }, None, step.1)
            }
        },
        BitswapEvent::ReceivedCancel(peer, cid) => {
            let exchange = s.exchange.remove_want(peer@, cid@);
            if !s.pending_send.contains((peer@, cid@)) {
                (ServiceView { exchange, ..s }, None, None)
            } else {
                let step = send_step(exchange, without(s.pending_send, (peer@, cid@)));
                (ServiceView { exchange, pending_send: step.0, ..s }, None, step.1)
            }
        },
    }
}

/// The view of the actions: (cid, data) delivered, (peer, cid, data) sent.
pub open spec fn actions_view(a: BitswapActions) -> (Option<PairView>, Option<WantedBlockView>) {
    (
        match a.deliver {
            Some(b) => Some((b.cid@, b.data@)),
            None => None,
        },
        match a.send {
            Some(x) => Some((x.0@, x.1.cid@, x.1.data@)),
            None => None,
        },
    )
}

/// The decision state of the node's IPFS background service.
pub struct IpfsBackgroundService {
    block_exchange: BlockExchange,
    pending_get_block: Vec<Cid>,
    pending_send_block: Vec<(PeerId, Cid)>,
    max_concurrent_send: usize,
}

/// The views of the pending (peer, block) pairs.
pub open spec fn pair_views(s: Seq<(PeerId, Cid)>) -> Seq<PairView> {
    s.map_values(|x: (PeerId, Cid)| (x.0@, x.1@))
}

/// The views of the pending requests.
pub open spec fn cid_seq_views(s: Seq<Cid>) -> Seq<Seq<u8>> {
    s.map_values(|c: Cid| c@)
}

impl View for IpfsBackgroundService {
    type V = ServiceView;

    closed spec fn view(&self) -> ServiceView {
        ServiceView {
            exchange: self.block_exchange@,
            pending_get: cid_seq_views(self.pending_get_block@),
            pending_send: pair_views(self.pending_send_block@),
            max_concurrent_send: self.max_concurrent_send as nat,
        }
    }
}

impl IpfsBackgroundService {
    /// The internal invariant: the exchange is well formed, no request and no
    /// pending pair is recorded twice, and no more pairs are pending than
    /// `max_concurrent_send`.
    pub closed spec fn wf(&self) -> bool {
        &&& self.block_exchange.wf()
        &&& unique(self@.pending_get)
        &&& unique(self@.pending_send)
        &&& self@.pending_send.len() <= self@.max_concurrent_send
    }

    /// A service with an empty exchange, that sends at most
    /// `max_concurrent_send` blocks at a time.
    pub fn new(max_concurrent_send: usize) -> (out: IpfsBackgroundService)
        ensures
            out.wf(),
            out@ == (ServiceView {
                exchange: ExchangeView::empty(),
                pending_get: Seq::empty(),
                pending_send: Seq::empty(),
                max_concurrent_send: max_concurrent_send as nat,
            }),
    {
        let out = IpfsBackgroundService {
            block_exchange: BlockExchange::new(),
            pending_get_block: Vec::new(),
            pending_send_block: Vec::new(),
            max_concurrent_send,
        };
        proof {
            assert(out@.pending_get =~= Seq::<Seq<u8>>::empty());
            assert(out@.pending_send =~= Seq::<PairView>::empty());
        }
        out
    }
}

impl IpfsBackgroundService {
    /// The position of the pair (`p`, `c`) among the pairs being sent.
    fn pending_send_index(&self, p: &PeerId, c: &Cid) -> (out: Option<usize>)
        ensures
            match out {
                Some(i) => i < self.pending_send_block@.len() && pair_views(self.pending_send_block@)[i as int] == (p@, c@),
                None => !pair_views(self.pending_send_block@).contains((p@, c@)),
            },
    {
        let mut i: usize = 0;
        while i < self.pending_send_block.len()
            invariant
                i <= self.pending_send_block@.len(),
                forall|j: int| 0 <= j < i ==> pair_views(self.pending_send_block@)[j] != (p@, c@),
            decreases self.pending_send_block.len() - i,
        {
            if self.pending_send_block[i].0.same_as(p) && self.pending_send_block[i].1.same_as(c) {
                return Some(i);
            }
            i = i + 1;
        }
        None
    }

    /// The position of a local request for block `c`.
    fn pending_get_index(&self, c: &Cid) -> (out: Option<usize>)
        ensures
            match out {
                Some(i) => i < self.pending_get_block@.len() && cid_seq_views(self.pending_get_block@)[i as int] == c@,
                None => !cid_seq_views(self.pending_get_block@).contains(c@),
            },
    {
        let mut i: usize = 0;
        while i < self.pending_get_block.len()
            invariant
                i <= self.pending_get_block@.len(),
                forall|j: int| 0 <= j < i ==> cid_seq_views(self.pending_get_block@)[j] != c@,
            decreases self.pending_get_block.len() - i,
        {
            if self.pending_get_block[i].same_as(c) {
                return Some(i);
            }
            i = i + 1;
        }
        None
    }

    /// Sends the first wanted block that is not already being sent to its
    /// peer, if any, and records the pair as pending.
    fn send_next(&mut self) -> (out: Option<(PeerId, Block)>)
        requires
            old(self).block_exchange.wf(),
            unique(old(self)@.pending_get),
            unique(old(self)@.pending_send),
            old(self)@.pending_send.len() < old(self)@.max_concurrent_send,
        ensures
            final(self).wf(),
            final(self)@ == (ServiceView {
                pending_send: send_step(old(self)@.exchange, old(self)@.pending_send).0,
                ..old(self)@
            }),
            actions_view(BitswapActions { deliver: None, send: out }).1 == send_step(
                old(self)@.exchange,
                old(self)@.pending_send,
            ).1,
    {
        let ghost pending = self@.pending_send;
        let mut candidates = self.block_exchange.iter_wanted_blocks();
        let ghost wanted = wanted_views(candidates@);
        let ghost s0 = self@;
        let mut k: usize = 0;
        assert(wanted.subrange(0, wanted.len() as int) =~= wanted);
        while k < candidates.len()
            invariant
                self@ == s0,
                s0 == old(self)@,
                self.block_exchange.wf(),
                unique(s0.pending_get),
                unique(pending),
                pending.len() < s0.max_concurrent_send,
                wanted == wanted_views(candidates@),
                wanted == self@.exchange.wanted_blocks(),
                pending == self@.pending_send,
                k <= wanted.len(),
                first_unsent(wanted, pending) == first_unsent(wanted.subrange(k as int, wanted.len() as int), pending),
            decreases candidates.len() - k,
        {
            let ghost rest = wanted.subrange(k as int, wanted.len() as int);
            proof {
                assert(rest.drop_first() =~= wanted.subrange(k + 1, wanted.len() as int));
                assert(rest[0] == wanted[k as int]);
            }
            let found = self.pending_send_index(&candidates[k].0, &candidates[k].1.cid);
            proof {
                assert(wanted[k as int] == (candidates@[k as int].0@, candidates@[k as int].1.cid@, candidates@[k as int].1.data@));
            }
            if found.is_none() {
                let ghost item = candidates@[k as int];
                let (peer, block) = candidates.remove(k);
                assert(peer == item.0 && block == item.1);
                let pair = (peer.duplicate(), block.cid.duplicate());
                self.pending_send_block.push(pair);
                proof {
                    assert(pair_views(self.pending_send_block@) =~= pending.push((peer@, block.cid@)));
                    lemma_push_unique(pending, (peer@, block.cid@));
                    assert(first_unsent(rest, pending) == Some(wanted[k as int]));
                    assert(s0 == old(self)@);
                    assert(self@.exchange == s0.exchange);
                    assert(self@.pending_get == s0.pending_get);
                }
                return Some((peer, block));
            }
            k = k + 1;
        }
        proof {
            assert(wanted.subrange(wanted.len() as int, wanted.len() as int) =~= Seq::<WantedBlockView>::empty());
        }
        None
    }
}

impl IpfsBackgroundService {
    /// Handles one bitswap event: a received block is stored and answers the
    /// local request waiting for it; then, unless too many blocks are being
    /// sent already (or, for a cancel, unless the cancelled pair was being
    /// sent), the first wanted block not yet being sent to its peer is sent.
    pub fn bitswap(&mut self, event: BitswapEvent) -> (actions: BitswapActions)
        requires
            old(self).wf(),
        ensures
            final(self).wf(),
            (final(self)@, actions_view(actions).0, actions_view(actions).1) == bitswap_model(old(self)@, event),
    {
        let ghost s0 = self@;
        match event {
            BitswapEvent::ReceivedBlock(_peer, block) => {
                let cid = block.cid.duplicate();
                self.block_exchange.add_block(block.duplicate());
                let deliver = match self.pending_get_index(&cid) {
                    Some(i) => {
                        proof {
                            lemma_without_unique(s0.pending_get, i as int);
                            lemma_remove_unique(s0.pending_get, i as int);
                        }
                        self.pending_get_block.remove(i);
                        proof {
                            assert(cid_seq_views(self.pending_get_block@) =~= s0.pending_get.remove(i as int));
                        }
                        Some(block)
                    },
                    None => {
                        proof {
                            lemma_without_absent(s0.pending_get, cid@);
                        }
                        None
                    },
                };
                if self.pending_send_block.len() >= self.max_concurrent_send {
                    return BitswapActions { deliver, send: None };
                }
                let send = self.send_next();
                BitswapActions { deliver, send }
            },
            BitswapEvent::ReceivedWant(peer_id, cid, _priority) => {
                self.block_exchange.add_want(peer_id, cid);
                if self.pending_send_block.len() >= self.max_concurrent_send {
                    return BitswapActions { deliver: None, send: None };
                }
                let send = self.send_next();
                BitswapActions { deliver: None, send }
            },
            BitswapEvent::ReceivedCancel(peer_id, cid) => {
                self.block_exchange.remove_want(&peer_id, &cid);
                match self.pending_send_index(&peer_id, &cid) {
                    None => BitswapActions { deliver: None, send: None },
                    Some(i) => {
                        proof {
                            lemma_without_unique(s0.pending_send, i as int);
                            lemma_remove_unique(s0.pending_send, i as int);
                        }
                        self.pending_send_block.remove(i);
                        proof {
                            assert(pair_views(self.pending_send_block@) =~= s0.pending_send.remove(i as int));
                        }
                        let send = self.send_next();
                        BitswapActions { deliver: None, send }
                    },
                }
            },
        }
    }

    /// Records a local request for the block `cid`; says whether a request
    /// for it was already waiting, which this one replaces.
    pub fn block_get(&mut self, cid: Cid) -> (replaced: bool)
        requires
            old(self).wf(),
        ensures
            final(self).wf(),
            replaced == old(self)@.pending_get.contains(cid@),
            final(self)@ == (ServiceView {
                pending_get: if replaced { old(self)@.pending_get } else { old(self)@.pending_get.push(cid@) },
                ..old(self)@
            }),
    {
        let ghost s0 = self@;
        match self.pending_get_index(&cid) {
            Some(_) => true,
            None => {
                proof {
                    lemma_push_unique(s0.pending_get, cid@);
                }
                self.pending_get_block.push(cid);
                proof {
                    assert(cid_seq_views(self.pending_get_block@) =~= s0.pending_get.push(cid@));
                }
                false
            },
        }
    }

    /// Stores a block produced locally.
    pub fn block_add(&mut self, block: Block)
        requires
            old(self).wf(),
        ensures
            final(self).wf(),
            final(self)@ == (ServiceView {
                exchange: old(self)@.exchange.add_block(block.cid@, block.data@),
                ..old(self)@
            }),
    {
        self.block_exchange.add_block(block);
    }
}

/// The block chosen to be sent is one of the wanted blocks, and its pair
/// was not pending.
proof fn lemma_first_unsent(wanted: Seq<WantedBlockView>, pending: Seq<PairView>)
    ensures
        match first_unsent(wanted, pending) {
            Some(x) => exists|i: int| 0 <= i < wanted.len() && wanted[i] == x && !pending.contains((x.0, x.1)),
            None => true,
        },
    decreases wanted.len(),
{
    if wanted.len() > 0 && pending.contains((wanted[0].0, wanted[0].1)) {
        lemma_first_unsent(wanted.drop_first(), pending);
        match first_unsent(wanted.drop_first(), pending) {
            Some(x) => {
                let i = choose|i: int| 0 <= i < wanted.drop_first().len() && wanted.drop_first()[i] == x && !pending.contains((x.0, x.1));
                assert(wanted[i + 1] == x);
            },
            None => {},
        }
    } else if wanted.len() > 0 {
        assert(wanted[0] == wanted[0]);
    }
}

/// Sending only a few blocks at a time: a well-formed service never has
/// more (peer, block) pairs being sent than `max_concurrent_send`, and no
/// pair nor request is recorded twice.
pub proof fn law_pending_sends_bounded(service: &IpfsBackgroundService)
    requires
        service.wf(),
    ensures
        service@.pending_send.len() <= service@.max_concurrent_send,
        unique(service@.pending_send),
        unique(service@.pending_get),
{
}

/// A block is only ever sent to a peer that wants it, only when it is held,
/// with the data held, and never while the same block is already being sent
/// to the same peer; afterwards the pair is pending.
pub proof fn law_sent_block_is_wanted(s: ServiceView, e: BitswapEvent)
    ensures
        match bitswap_model(s, e).2 {
            Some(x) => {
                &&& bitswap_model(s, e).0.exchange.wants.contains((x.0, x.1))
                &&& bitswap_model(s, e).0.exchange.get_block(x.1) == Some(x.2)
                &&& !s.pending_send.contains((x.0, x.1))
                &&& bitswap_model(s, e).0.pending_send.contains((x.0, x.1))
            },
            None => true,
        },
{
    let (after, _d, sent) = bitswap_model(s, e);
    let pending = match e {
        BitswapEvent::ReceivedCancel(peer, cid) => without(s.pending_send, (peer@, cid@)),
        _ => s.pending_send,
    };
    let wanted = after.exchange.wanted_blocks();
    match sent {
        Some(x) => {
            assert(first_unsent(wanted, pending) == Some(x));
            lemma_first_unsent(wanted, pending);
            let i = choose|i: int| 0 <= i < wanted.len() && wanted[i] == x && !pending.contains((x.0, x.1));
            crate::block_exchange::law_wanted_blocks_are_wanted_and_held(after.exchange, i);
            assert(after.pending_send == pending.push((x.0, x.1)));
            assert(after.pending_send[pending.len() as int] == (x.0, x.1));
            match e {
                BitswapEvent::ReceivedCancel(peer, cid) => {
                    let ex0 = s.exchange;
                    crate::block_exchange::law_cancel_removes(ex0, peer@, cid@);
                    assert((x.0, x.1) != (peer@, cid@));
                    lemma_without_keeps(s.pending_send, (peer@, cid@), (x.0, x.1));
                },
                _ => {},
            }
        },
        None => {},
    }
}

/// Whether the outcome of a bootstrap query goes back to the caller that
/// asked for it: a failure at once, a success only once no step of the
/// bootstrap remains.
pub fn bootstrap_reply_due(succeeded: bool, num_remaining: u32) -> (out: bool)
    ensures
        out == (!succeeded || num_remaining == 0),
{
    !succeeded || num_remaining == 0
}

/// A cancel of a (peer, block) pair that is not being sent frees no place:
/// it sends nothing and leaves the pending sends as they were, whatever the
/// want list holds.
pub proof fn law_cancel_of_unsent_pair(s: ServiceView, peer: PeerId, cid: Cid)
    requires
        !s.pending_send.contains((peer@, cid@)),
    ensures
        bitswap_model(s, BitswapEvent::ReceivedCancel(peer, cid)).2 is None,
        bitswap_model(s, BitswapEvent::ReceivedCancel(peer, cid)).0.pending_send == s.pending_send,
        bitswap_model(s, BitswapEvent::ReceivedCancel(peer, cid)).1 is None,
{
}

/// A cancel of a pair that is being sent frees its place: the pair is no
/// longer pending, and at most one other pair takes the place.
pub proof fn law_cancel_of_pending_pair(s: ServiceView, peer: PeerId, cid: Cid)
    requires
        s.pending_send.contains((peer@, cid@)),
        unique(s.pending_send),
    ensures
        !bitswap_model(s, BitswapEvent::ReceivedCancel(peer, cid)).0.pending_send.contains((peer@, cid@)),
        bitswap_model(s, BitswapEvent::ReceivedCancel(peer, cid)).0.pending_send.len() <= s.pending_send.len(),
{
    let after = bitswap_model(s, BitswapEvent::ReceivedCancel(peer, cid));
    let pending = without(s.pending_send, (peer@, cid@));
    let i = choose|i: int| 0 <= i < s.pending_send.len() && s.pending_send[i] == (peer@, cid@);
    lemma_without_unique(s.pending_send, i);
    lemma_remove_unique(s.pending_send, i);
    assert(!pending.contains((peer@, cid@))) by {
        if pending.contains((peer@, cid@)) {
            let k = choose|k: int| 0 <= k < pending.len() && pending[k] == (peer@, cid@);
            let ok = if k < i { k } else { k + 1 };
            assert(s.pending_send[ok] == pending[k]);
        }
    }
    match after.2 {
        Some(x) => {
            law_sent_block_is_wanted(s, BitswapEvent::ReceivedCancel(peer, cid));
            crate::block_exchange::law_cancel_removes(s.exchange, peer@, cid@);
            assert(after.0.pending_send == pending.push((x.0, x.1)));
            assert((x.0, x.1) != (peer@, cid@));
            if after.0.pending_send.contains((peer@, cid@)) {
                let k = choose|k: int| 0 <= k < after.0.pending_send.len() && after.0.pending_send[k] == (peer@, cid@);
                if k < pending.len() {
                    assert(pending[k] == (peer@, cid@));
                }
            }
        },
        None => {},
    }
}

} // verus!
