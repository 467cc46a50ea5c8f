[package]
name = "streaming_test"
version = "0.1.0"
edition = "2021"
publish = false

[dependencies]
cid = "=0.7.0"
multihash = "=0.14.0"
rand = "=0.8.8"
rand_xoshiro = "=0.6.0"
ipnetwork = "=0.20.0"
libp2p = { version = "=0.42.2", default-features = false, features = ["tcp-tokio", "dns-tokio", "noise", "mplex", "yamux", "gossipsub", "kad", "ping"] }
testground = "=0.4.0"
tokio = { version = "=1.54.1", features = ["rt-multi-thread", "macros", "sync", "time"] }
tokio-stream = "=0.1.19"
futures-util = "=0.3.34"
chrono = "=0.4.45"
serde = { version = "=1.0.229", features = ["derive"] }
serde_json = "=1.0.154"
serde_with = { version = "=2.3.3", default-features = false, features = ["macros"] }
pnet_datalink = "=0.35.0"
