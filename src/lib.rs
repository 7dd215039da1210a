//! Incremental maintenance of a voter ranking and a target approval ranking
//! driven by staking lifecycle events, together with a call-trace collector.

pub mod sorted_list;
pub mod staking;
pub mod tracker;
pub mod try_state;
pub mod debug;
pub mod laws;
pub mod consistency;

