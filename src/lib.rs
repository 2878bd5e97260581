//! babencoin: the verified core of a peer-to-peer node for a toy proof-of-work coin.
//!
//! The node keeps a forest of competing chains with wallet balances and a pending pool,
//! gossips blocks and transactions to its peers without flooding any of them twice, frames
//! messages on the wire, and mines on top of its best head. Beside the node stand a few
//! independent data structures and a gzip decoder.

pub mod data;
pub mod block_forest;
pub mod peer_service;
pub mod gossip_service;
pub mod mining_service;

pub mod bit_reader;
pub mod huffman_coding;
pub mod tracking_writer;
pub mod gzip;
pub mod deflate;
pub mod ripgzip;

pub mod bst;
pub mod conway;
pub mod flatmap;
pub mod itertools;
pub mod lru_cache;
pub mod prefix;
pub mod pstack;
pub mod trust;
pub mod trie;
