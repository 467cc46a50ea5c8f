//! The verified logic of a live-video streaming experiment over IPFS.
pub mod text;
pub mod seqs;
pub mod params;
pub mod block;
pub mod block_exchange;
pub mod background;
pub mod video_player;
pub mod network;
pub mod streamer;
