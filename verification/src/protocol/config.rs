//! Session-wide configuration.

use vstd::prelude::*;

use crate::auction::auction::AUCTION_BID_XI;
use crate::auction::iblt::{delta_for, iblt_field_element_count, table_fits, IBLT_GAMMA};
use crate::crypto::fields::WIRE_BYTES;

verus! {

/// Whether the protocol uses the optional aggregator layer. When `Disabled`,
/// clients submit signed round messages directly to servers.
#[derive(Clone, Copy, Debug, PartialEq, Eq, Structural)]
pub enum AggregationMode {
    Enabled,
    Disabled,
}

impl Default for AggregationMode {
    fn default() -> (r: Self)
        ensures
            r is Enabled,
    {
        AggregationMode::Enabled
    }
}

/// A length of time in whole milliseconds.
#[derive(Clone, Copy, Debug, PartialEq, Eq, Structural)]
pub struct RoundDuration {
    pub millis: u128,
}

#[derive(Clone, Copy, Debug, PartialEq, Eq, Structural)]
pub struct AdcNetConfig {
    pub auction_slots: u32,
    pub message_length: usize,
    pub min_clients: u32,
    pub round_duration: RoundDuration,
    pub rounds_per_window: u32,
    pub aggregation: AggregationMode,
}

/// Ten seconds.
pub fn default_round() -> (r: RoundDuration)
    ensures
        r.millis == 10_000,
{
    RoundDuration { millis: 10_000 }
}

impl Default for AdcNetConfig {
    fn default() -> (r: Self)
        ensures
            r == (AdcNetConfig {
                auction_slots: 10,
                message_length: 0,
                min_clients: 1,
                round_duration: RoundDuration { millis: 10_000 },
                rounds_per_window: 0,
                aggregation: AggregationMode::Enabled,
            }),
    {
        AdcNetConfig {
            auction_slots: 10,
            message_length: 0,
            min_clients: 1,
            round_duration: default_round(),
            rounds_per_window: 0,
            aggregation: AggregationMode::Enabled,
        }
    }
}

impl AdcNetConfig {
    /// The auction table for this configuration is countable.
    pub open spec fn ok(self) -> bool {
        table_fits(self.auction_slots, AUCTION_BID_XI as nat)
    }
}

/// Byte size of the encoded auction-IBLT field-element vector on the wire,
/// modulo `2^32`.
pub fn auction_slots_for_config(c: &AdcNetConfig) -> (r: u32)
    requires
        IBLT_GAMMA * delta_for(c.auction_slots) * (2 + AUCTION_BID_XI) * WIRE_BYTES <= usize::MAX,
    ensures
        r == (IBLT_GAMMA * delta_for(c.auction_slots) * (2 + AUCTION_BID_XI) * WIRE_BYTES)
            % 0x1_0000_0000,
{
    let bytes: usize = iblt_field_element_count(c.auction_slots, AUCTION_BID_XI) * WIRE_BYTES;
    (bytes as u64 % 0x1_0000_0000u64) as u32
}

/// Result of running the auction over the previous round's IBLT.
#[derive(Clone, Copy, Debug, PartialEq, Eq, Structural)]
pub struct AuctionResult {
    pub should_send: bool,
    pub message_start_index: usize,
    pub total_allocated: usize,
}

impl Default for AuctionResult {
    fn default() -> (r: Self)
        ensures
            r == (AuctionResult {
                should_send: false,
                message_start_index: 0,
                total_allocated: 0,
            }),
    {
        AuctionResult { should_send: false, message_start_index: 0, total_allocated: 0 }
    }
}

} // verus!
