//! Auction-scheduling primitives: IBLT vector for blinded bid encoding and
//! a 0/1 knapsack solver to allocate per-round message bandwidth.

pub mod auction;
pub mod auction_laws;
pub mod iblt;
pub mod iblt_laws;
pub mod iblt_layout_laws;

pub use auction::{AuctionData, AuctionEngine, AuctionWinner};
pub use iblt::{
    chunk_index, iblt_delta, iblt_field_element_count, IbltError, IbltVector, RecoveredEntry,
    IBLT_GAMMA, KEY_BYTES,
};
