//! Minimal execution-layer storage for Conflux replay.
//!
//! The crate holds the layered Merkle Patricia trie that backs the replayed
//! state, and the packet format that carries the replayed blocks.
#![allow(unused_imports)]

pub mod bench;
pub mod block;
pub mod byte_law;
pub mod bytemap;
pub mod bytes;
pub mod cache;
pub mod cfxpack;
pub mod extract;
pub mod incremental;
pub mod key_codec;
pub mod key_law;
pub mod node_step;
pub mod order;
pub mod parallel;
pub mod plan_law;
pub mod raw;
pub mod run_law;
pub mod snapshot;
pub mod state;
pub mod store;
pub mod text;
pub mod text_law;
pub mod trace;
pub mod trie;
pub mod trie_law;
pub mod types;
pub mod validate;
pub mod view_law;
