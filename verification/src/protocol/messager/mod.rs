//! Stateless protocol operations: client message preparation/blinding,
//! aggregator union, server unblinding.

use vstd::prelude::*;

use crate::auction::auction::AUCTION_BID_XI;
use crate::auction::iblt::{delta_for, IBLT_GAMMA};

pub mod aggregator;
pub mod aggregator_laws;
pub mod client;
pub mod client_laws;
pub mod laws;
pub mod server;
pub mod server_laws;

pub use aggregator::{AggregatorMessager, VerifiedClientMessage, VerifyClientMessages};
pub use client::ClientMessager;
pub use server::ServerMessager;

verus! {

/// The round number that pads are derived from: the low 32 bits.
pub open spec fn pad_round(round: i64) -> u32 {
    round as u32
}

/// The length of the auction vector for `slots` expected bids.
pub open spec fn auction_len(slots: u32) -> nat {
    IBLT_GAMMA as nat * delta_for(slots) * (2 + AUCTION_BID_XI as nat)
}

} // verus!
