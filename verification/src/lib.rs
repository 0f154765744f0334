//! netmux-core: platform-agnostic engine for a Linux network aggregation tool.
//!
//! Provides interface discovery, usage statistics, load-balancing / failover policies,
//! minimal IP packet parsing, userspace NAT sessions and the aggregator that combines
//! them. Every function states what it computes in its contract; the functions named
//! `law_..` state what holds of several together. What touches the host (reading
//! `/sys/class/net`, TUN and raw sockets, the clock, rates as floating-point numbers) is
//! left to the application, which hands plain values in and takes plain values out.

use vstd::prelude::*;

pub mod addr;
pub mod aggregator;
pub mod display;
pub mod error;
pub mod forward;
pub mod generator;
pub mod interface;
pub mod link;
pub mod load;
pub mod names;
pub mod order;
pub mod packet;
pub mod policy;
pub mod session;
pub mod simulation;
pub mod stats;
pub mod text;

pub use aggregator::{Aggregator, ForwardDecision, Mode};
pub use error::{NetmuxError, Result};
pub use generator::PcapGenerator;
pub use interface::{Interface, InterfaceKind};
pub use policy::{
    AggregatorConfig, BalanceAlgorithm, CandidateIface, InterfacePolicy, Strategy,
};
pub use session::{NatTable, Session};

verus! {

/// Branding / application shared name.
pub const APP_NAME: &'static str = "NetMux";

} // verus!
