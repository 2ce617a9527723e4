//! A decentralised exchange node: Kademlia routing, atomic swaps, shard
//! replication, watchtower fraud handling and supporting storage, with the
//! behaviour of each piece stated and proved.

pub mod clock;
pub mod network;
pub mod kv;
pub mod rate_limiting;
pub mod error;
pub mod crypto;
pub mod matching_engine;
pub mod gossip;
pub mod watchtower;
pub mod shard_logic;
pub mod utils;
pub mod text;
pub mod storage;
pub mod security;
pub mod settlement;
pub mod sybil;
pub mod self_healing;
pub mod rest_api;
pub mod voting;
pub mod node_logic;
pub mod order;
