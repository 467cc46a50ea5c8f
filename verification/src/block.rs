//! Blocks of video data, the identifiers of blocks and peers, and the
//! generation of the blocks of one video segment.
use vstd::prelude::*;
use multihash::MultihashDigest;
use rand::RngCore;
use rand_xoshiro::Xoshiro256StarStar;
use crate::text::{bytes_eq, copy_bytes};

verus! {

/// Size in bytes of a block when the largest blocks are asked for.
pub const MAX_BLOCK_SIZE: usize = 524288;

/// Size in bytes of a block otherwise.
pub const STANDARD_BLOCK_SIZE: usize = 262144;

/// A peer, identified by the bytes of its multihash-encoded peer id.
#[derive(Clone, Debug, PartialEq, Eq, Hash)]
pub struct PeerId {
    pub bytes: Vec<u8>,
}

/// A content identifier, held as its binary encoding.
#[derive(Clone, Debug, PartialEq, Eq, Hash)]
pub struct Cid {
    pub bytes: Vec<u8>,
}

/// A block of data and its content identifier.
#[derive(Clone, Debug, PartialEq, Eq, Hash)]
pub struct Block {
    pub cid: Cid,
    pub data: Vec<u8>,
}

impl View for PeerId {
    type V = Seq<u8>;

    open spec fn view(&self) -> Seq<u8> {
        self.bytes@
    }
}

impl View for Cid {
    type V = Seq<u8>;

    open spec fn view(&self) -> Seq<u8> {
        self.bytes@
    }
}

impl PeerId {
    /// A copy of this peer id.
    pub fn duplicate(&self) -> (out: PeerId)
        ensures
            out@ == self@,
    {
        PeerId { bytes: copy_bytes(&self.bytes) }
    }

    /// Whether two peer ids are the same.
    pub fn same_as(&self, other: &PeerId) -> (r: bool)
        ensures
            r == (self@ == other@),
    {
        bytes_eq(&self.bytes, &other.bytes)
    }
}

impl Cid {
    /// A copy of this content identifier.
    pub fn duplicate(&self) -> (out: Cid)
        ensures
            out@ == self@,
    {
        Cid { bytes: copy_bytes(&self.bytes) }
    }

    /// Whether two content identifiers are the same.
    pub fn same_as(&self, other: &Cid) -> (r: bool)
        ensures
            r == (self@ == other@),
    {
        bytes_eq(&self.bytes, &other.bytes)
    }
}

impl Block {
    /// A block made of its data and its content identifier.
    pub fn new(data: Vec<u8>, cid: Cid) -> (out: Block)
        ensures
            out.cid@ == cid@,
            out.data@ == data@,
    {
        Block { cid, data }
    }

    /// The content identifier of the block.
    pub fn cid(&self) -> (out: &Cid)
        ensures
            out@ == self.cid@,
    {
        &self.cid
    }

    /// A copy of this block.
    pub fn duplicate(&self) -> (out: Block)
        ensures
            out.cid@ == self.cid@,
            out.data@ == self.data@,
    {
        Block { cid: self.cid.duplicate(), data: copy_bytes(&self.data) }
    }
}

#[verifier::external_type_specification]
#[verifier::external_body]
pub struct ExXoshiro256StarStar(Xoshiro256StarStar);

/// The SHA2-256 digest of `data`.
pub uninterp spec fn sha2_256(data: Seq<u8>) -> Seq<u8>;

/// The encoding of the version 1 content identifier, with multicodec 0x00,
/// of data whose SHA2-256 digest is given: the varints of the version (1),
/// of the codec (0), of the hash code (0x12) and of the digest length (32),
/// then the digest.
pub open spec fn cid_of_digest(digest: Seq<u8>) -> Seq<u8> {
    seq![0x01u8, 0x00u8, 0x12u8, 0x20u8] + digest
}

/// The content identifier that blocks of `data` carry.
pub open spec fn block_cid(data: Seq<u8>) -> Seq<u8> {
    cid_of_digest(sha2_256(data))
}

/// Fills `buf` with bytes drawn from `rng` (`RngCore::fill_bytes`); the
/// contract states that the length is kept and nothing of the bytes drawn.
#[verifier::external_body]
fn fill_random(rng: &mut Xoshiro256StarStar, buf: &mut Vec<u8>)
    ensures
        final(buf)@.len() == old(buf)@.len(),
{
    rng.fill_bytes(buf.as_mut_slice());
}

/// `cid::Cid::new_v1(0x00, Code::Sha2_256.digest(data)).to_bytes()`: the
/// contract states the layout of the encoding that `Cid::to_bytes` and
/// `Multihash::write` produce, and names the digest.
#[verifier::external_body]
fn raw_block_cid(data: &Vec<u8>) -> (out: Cid)
    ensures
        out@ == cid_of_digest(sha2_256(data@)),
        out@.len() == 36,
{
    Cid { bytes: cid::Cid::new_v1(0x00, multihash::Code::Sha2_256.digest(data)).to_bytes() }
}

/// The content identifier of a block of `data`.
pub fn cid_for_data(data: &Vec<u8>) -> (out: Cid)
    ensures
        out@ == block_cid(data@),
{
    raw_block_cid(data)
}

/// A block of `block_size` random bytes, with its content identifier.
pub fn random_block(rng: &mut Xoshiro256StarStar, block_size: usize) -> (out: Block)
    ensures
        out.data@.len() == block_size,
        out.cid@ == block_cid(out.data@),
{
    let mut data: Vec<u8> = vec![0; block_size];
    fill_random(rng, &mut data);
    let cid = raw_block_cid(&data);
    Block { cid, data }
}

/// The number of bytes of a segment, when the number of bits fits a `usize`.
pub fn segment_bytes_of(bitrate: usize, segment_length: usize) -> (out: Option<usize>)
    ensures
        match out {
            Some(n) => bitrate * segment_length <= usize::MAX && n == segment_bytes(bitrate, segment_length),
            None => bitrate * segment_length > usize::MAX,
        },
{
    match bitrate.checked_mul(segment_length) {
        Some(bits) => Some(bits / 8),
        None => None,
    }
}

/// The size of the blocks of a segment.
pub open spec fn block_size_spec(max_size: bool) -> int {
    if max_size {
        MAX_BLOCK_SIZE as int
    } else {
        STANDARD_BLOCK_SIZE as int
    }
}

/// The number of bytes of a segment of `segment_length` seconds at `bitrate`
/// bits per second.
pub open spec fn segment_bytes(bitrate: usize, segment_length: usize) -> int {
    (bitrate * segment_length) / 8
}

/// The number of blocks that hold `total` bytes in blocks of `size` bytes.
pub open spec fn block_count_spec(total: int, size: int) -> int {
    total / size + if total % size > 0 { 1int } else { 0int }
}

/// The size of block `i` of a segment of `total` bytes cut into blocks of
/// `size` bytes: every block is full but the last, which holds the rest.
pub open spec fn block_len_spec(total: int, size: int, i: int) -> int {
    if i == block_count_spec(total, size) - 1 && total % size > 0 {
        total % size
    } else {
        size
    }
}

/// The sizes of the blocks of one segment, in order.
pub fn block_sizes(bitrate: usize, segment_length: usize, max_size: bool) -> (sizes: Vec<usize>)
    requires
        bitrate * segment_length <= usize::MAX,
        segment_bytes(bitrate, segment_length) > 0,
    ensures
        sizes@.len() == block_count_spec(
            segment_bytes(bitrate, segment_length),
            block_size_spec(max_size),
        ),
        forall|i: int|
            0 <= i < sizes@.len() ==> sizes@[i] == block_len_spec(
                segment_bytes(bitrate, segment_length),
                block_size_spec(max_size),
                i,
            ),
{
    let total_bytes = bitrate * segment_length / 8;
    let block_size = if max_size { MAX_BLOCK_SIZE } else { STANDARD_BLOCK_SIZE };
    let mut num_blocks = total_bytes / block_size;
    let remainder_bytes = total_bytes % block_size;
    if remainder_bytes > 0 {
        num_blocks = num_blocks + 1;
    }
    let ghost total = segment_bytes(bitrate, segment_length);
    let ghost size = block_size_spec(max_size);
    assert(total_bytes == total);
    assert(num_blocks == block_count_spec(total, size));
    assert(num_blocks >= 1) by {
        assert(total > 0 && size > 0 ==> total / size > 0 || total % size > 0) by (nonlinear_arith);
    }
    let mut sizes: Vec<usize> = Vec::with_capacity(num_blocks);
    let mut k: usize = 0;
    while k < num_blocks
        invariant
            k <= num_blocks,
            num_blocks == block_count_spec(total, size),
            block_size == size,
            remainder_bytes == total % size,
            sizes@.len() == k,
            forall|i: int| 0 <= i < k ==> sizes@[i] == block_len_spec(total, size, i),
        decreases num_blocks - k,
    {
        let this_size = if k == num_blocks - 1 && remainder_bytes > 0 {
            remainder_bytes
        } else {
            block_size
        };
        sizes.push(this_size);
        k = k + 1;
    }
    sizes
}

/// The random blocks of one video segment of `segment_length` seconds at
/// `bitrate` bits per second.
pub fn generate_blocks(
    rng: &mut Xoshiro256StarStar,
    bitrate: usize,
    segment_length: usize,
    max_size: bool,
) -> (blocks: Vec<Block>)
    requires
        bitrate * segment_length <= usize::MAX,
        segment_bytes(bitrate, segment_length) > 0,
    ensures
        blocks@.len() == block_count_spec(
            segment_bytes(bitrate, segment_length),
            block_size_spec(max_size),
        ),
        forall|i: int|
            0 <= i < blocks@.len() ==> (#[trigger] blocks@[i]).data@.len() == block_len_spec(
                segment_bytes(bitrate, segment_length),
                block_size_spec(max_size),
                i,
            ),
        forall|i: int|
            0 <= i < blocks@.len() ==> (#[trigger] blocks@[i]).cid@ == block_cid(blocks@[i].data@),
{
    let sizes = block_sizes(bitrate, segment_length, max_size);
    let mut blocks: Vec<Block> = Vec::with_capacity(sizes.len());
    let mut k: usize = 0;
    while k < sizes.len()
        invariant
            k <= sizes@.len(),
            blocks@.len() == k,
            forall|i: int| 0 <= i < k ==> (#[trigger] blocks@[i]).data@.len() == sizes@[i],
            forall|i: int| 0 <= i < k ==> (#[trigger] blocks@[i]).cid@ == block_cid(blocks@[i].data@),
        decreases sizes.len() - k,
    {
        let block = random_block(rng, sizes[k]);
        blocks.push(block);
        k = k + 1;
    }
    blocks
}

} // verus!
