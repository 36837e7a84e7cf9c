//! Picks the least busy team member to review a pull request.
//!
//! The library holds the verified logic: reading the run's inputs into a
//! [`config::Config`], counting each team member's open review load from pull
//! request snapshots, scoring candidates with exact fixed-point weights and
//! ranking them with a stable order.
pub mod config;
pub mod laws;
pub mod ranking;
pub mod recency;
pub mod score;
pub mod text;
pub mod weight;
pub mod window;
pub mod workload;
