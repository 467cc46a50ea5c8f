# streaming_test

A live-video streaming experiment over IPFS, run as a Testground test plan:
one streamer cuts video segments into random blocks and announces them on a
gossip topic; viewers fetch the blocks over bitswap, buffer the segments and
play them, recording latency, jitter and stalls.

The library (`src/`) holds the logic, verified with Verus:

- `params`: the `name=value|...` test case parameters.
- `block`: blocks, their content identifiers, and the blocks of a segment.
- `block_exchange`: the bitswap want list and block store.
- `background`: which block to send to which peer, and which local request a
  received block answers.
- `video_player`: the viewer's buffer and playback.
- `network`: the node's data-network address and the peer announcements.
- `streamer`: numbering and announcing segments.
- `text`, `seqs`: character sequences and sequences used as sets.

`app/` is the program around it: the libp2p swarm, the Testground client, the
timers and the metrics.

`app/` reaches bitswap through the `ipfs_bitswap` crate. No release of that
crate that fits the versions of `libp2p` used here can be had, so `app/` does
not build as it stands; the library and its tests do not depend on it.
