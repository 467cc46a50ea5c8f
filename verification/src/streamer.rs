//! The streamer's side: cutting each video segment into blocks and
//! announcing it.
use vstd::prelude::*;
use rand_xoshiro::Xoshiro256StarStar;
use crate::block::{
    Block, Cid, block_cid, block_count_spec, block_len_spec, block_size_spec, generate_blocks,
    segment_bytes,
};
use crate::params::TestCaseParams;
use crate::video_player::StreamerMessage;

verus! {

/// A segment of video, numbered, as the blocks that hold it.
pub struct VideoSegment {
    pub count: u64,
    pub blocks: Vec<Block>,
}

/// Produces the next segment: it takes the number `counter` holds, which
/// moves on by one, and random blocks for `segment_length` seconds of video
/// at `video_bitrate`.
pub fn generate_video(rng: &mut Xoshiro256StarStar, counter: &mut u64, params: &TestCaseParams) -> (segment: VideoSegment)
    requires
        *old(counter) < u64::MAX,
        params.video_bitrate * params.segment_length <= usize::MAX,
        segment_bytes(params.video_bitrate, params.segment_length) > 0,
    ensures
        *final(counter) == *old(counter) + 1,
        segment.count == *old(counter),
        segment.blocks@.len() == block_count_spec(
            segment_bytes(params.video_bitrate, params.segment_length),
            block_size_spec(params.max_size_block),
        ),
        forall|i: int|
            0 <= i < segment.blocks@.len() ==> (#[trigger] segment.blocks@[i]).data@.len() == block_len_spec(
                segment_bytes(params.video_bitrate, params.segment_length),
                block_size_spec(params.max_size_block),
                i,
            ),
        forall|i: int|
            0 <= i < segment.blocks@.len() ==> (#[trigger] segment.blocks@[i]).cid@ == block_cid(
                segment.blocks@[i].data@,
            ),
{
    let count = *counter;
    *counter = count + 1;
    let blocks = generate_blocks(rng, params.video_bitrate, params.segment_length, params.max_size_block);
    VideoSegment { count, blocks }
}

/// The announcement of a segment produced at `timestamp`: its number and
/// the identifiers of its blocks, in order.
pub fn segment_message(count: u64, timestamp: u64, blocks: &Vec<Block>) -> (msg: StreamerMessage)
    ensures
        msg.count == count,
        msg.timestamp == timestamp,
        msg.cids@.len() == blocks@.len(),
        forall|i: int| 0 <= i < blocks@.len() ==> (#[trigger] msg.cids@[i])@ == blocks@[i].cid@,
{
    let mut cids: Vec<Cid> = Vec::with_capacity(blocks.len());
    let mut k: usize = 0;
    while k < blocks.len()
        invariant
            k <= blocks@.len(),
            cids@.len() == k,
            forall|i: int| 0 <= i < k ==> (#[trigger] cids@[i])@ == blocks@[i].cid@,
        decreases blocks.len() - k,
    {
        cids.push(blocks[k].cid.duplicate());
        k = k + 1;
    }
    StreamerMessage { count, timestamp, cids }
}

} // verus!
