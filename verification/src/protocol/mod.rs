//! Protocol layer: round state machine, blinded message construction,
//! aggregation (optional), and partial-decryption flow on servers.

pub mod config;
pub mod duration_text;
pub mod envelope;
pub mod messager;
pub mod messages;
pub mod round;
pub mod services;
pub mod session;
pub mod transcript_laws;
pub mod wire;

pub use config::{auction_slots_for_config, AdcNetConfig, AggregationMode, AuctionResult};
pub use messager::{
    AggregatorMessager, ClientMessager, ServerMessager, VerifiedClientMessage,
    VerifyClientMessages,
};
pub use messages::{
    AggregatedClientMessages, ClientRoundMessage, ProtocolError, RoundBroadcast,
    ServerPartialDecryptionMessage, Signed,
};
pub use round::{Round, RoundContext};
pub use services::{AggregatorService, ClientService, ServerService};
