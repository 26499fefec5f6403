//! A Zcash peer-to-peer network crawler library.
//!
//! The crawler dials peers, performs a one-sided Zcash handshake, harvests
//! peer-exchange gossip, and keeps a record of every address it has seen.
//! This crate holds the verified core: the known-network store, the crawl
//! scheduling rules, the per-connection protocol decisions, and the
//! snapshot / classification layer served over RPC.

use vstd::prelude::*;

pub mod addr;
pub mod network;
pub mod protocol;
pub mod rpc;
pub mod seeds;
pub mod summary;
pub mod classify;
pub mod strutil;

verus! {

/// Default Zcash mainnet peer-to-peer port.
pub const ZCASH_P2P_DEFAULT_MAINNET_PORT: u16 = 8233;

/// Default Zcash testnet peer-to-peer port.
pub const ZCASH_P2P_DEFAULT_TESTNET_PORT: u16 = 18233;

} // verus!
