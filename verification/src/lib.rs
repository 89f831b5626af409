//! Pending-block-aware routing logic for a Starknet JSON-RPC load balancer.
//!
//! The library keeps track of the chain head that each upstream node reports,
//! orders those heads (a pending block is compared against confirmed blocks by
//! the height it will be confirmed at and the transactions it already holds),
//! and only routes requests to upstreams that are at the most recent head.

pub mod cli;
pub mod endpoint;
pub mod handles;
pub mod head;
pub mod head_order;
pub mod resolver;
pub mod routing;
pub mod shared;
pub mod store;
pub mod tracker;
