//! ADCNet — auction-based anonymous DC net.
//!
//! Library-shaped: stateless primitives + encoders form the public surface;
//! reference sessions are composed on top of them.
//!
//! - [`primitives`]: blinded-broadcast primitives (`field_round`, `xor_round`).
//! - [`encoders`]: payload encoders (`auction_iblt`, `message_slots`,
//!   `iblt_msg`).
//! - [`protocol::session`]: reference sessions composing primitives + encoders.
//! - [`auction`], [`crypto`], [`protocol`]: low-level building blocks.
//! - [`collections`], [`sorting`], [`sums`], [`bytes`]: what the proofs and the
//!   code above share.
//! - [`randomness`]: where the keys of table entries come from.
//!
//! Every executable function states what it computes over the views of its
//! arguments. What the crate promises as a whole stands in public proof
//! functions whose names begin with `law_`. Two of them say what the protocol
//! is for: [`protocol::messager::laws`] for the auction-then-broadcast flow, and
//! [`protocol::session::one_round_laws`] for the scheduling-free one.

pub mod auction;
pub mod bytes;
pub mod collections;
pub mod crypto;
pub mod encoders;
pub mod primitives;
pub mod protocol;
pub mod randomness;
pub mod sorting;
pub mod sums;

pub use crate::auction::{AuctionData, AuctionEngine, AuctionWinner, IbltVector};
pub use crate::crypto::{
    derive_blinding_vector, derive_xor_blinding_vector, PrivateKey, PublicKey, ServerId,
    SharedKey, Signature,
};
pub use crate::encoders::{auction_iblt, iblt_msg, message_slots};
pub use crate::primitives::{field_round, xor_round};
pub use crate::protocol::envelope::Signed;
pub use crate::protocol::session;
pub use crate::protocol::{
    AdcNetConfig, AggregatedClientMessages, AggregationMode, AuctionResult, ClientMessager,
    ClientRoundMessage, ClientService, ProtocolError, Round, RoundBroadcast, RoundContext,
    ServerMessager, ServerPartialDecryptionMessage, ServerService, VerifiedClientMessage,
};
