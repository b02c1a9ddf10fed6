//! Stateful per-component services.
//!
//! Under [`AggregationMode::Disabled`](crate::protocol::config::AggregationMode),
//! [`ServerService::process_client_message`] folds a signed client message
//! directly into the round's running aggregate, skipping the
//! [`AggregatorService`].
//!
//! These are reference compositions. A service owns its state and changes it
//! through `&mut self`; callers that share a service between threads put it
//! behind a lock.

pub mod aggregator;
pub mod client;
pub mod client_laws;
pub mod laws;
pub mod server;
pub mod server_laws;

pub use aggregator::AggregatorService;
pub use client::ClientService;
pub use server::ServerService;
