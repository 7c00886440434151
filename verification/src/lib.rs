//! Exact fee totals for one block of a public blockchain.
//!
//! The crate holds the decisions of a fetch-and-aggregate pipeline: it checks
//! a block identifier, composes the addresses to query, joins the outcomes of
//! the per-transaction lookups and adds the fees without rounding. Network
//! traffic is left to the caller, who feeds the results back as events.

pub mod error;
pub mod block;
pub mod endpoint;
pub mod amount;
pub mod aggregate;
pub mod dispatch;
pub mod pipeline;
pub mod run;
