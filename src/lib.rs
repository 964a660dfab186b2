//! Routing engine of a location-aware TCP load balancer: proximity ordering
//! of deployment locations, per-endpoint round-robin backend selection with
//! failover to farther locations, and the assembly of endpoint routing tables
//! from discovery records.

pub mod routing;
pub mod proximity;
pub mod discovery;
