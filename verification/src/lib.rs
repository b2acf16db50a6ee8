//! A per-tick scheduler for independent worker agents and the resource
//! reservation ledger that keeps two agents from being promised the same
//! unit of material.
//!
//! The ledger (`inventory`) tracks the resource targets observed each tick
//! and the in-flight reservations against them.  The scheduler (`tasks`)
//! assigns every idle agent a task from its capability profile and drives
//! each task forward one step per tick, consuming and releasing
//! reservations as tasks progress.  The world itself — observations,
//! movement, and the harvest/pickup/transfer actions — stays outside: the
//! surrounding driver hands in plain-value snapshots and action outcomes,
//! and performs what the step plans ask for.

pub mod client_hacks;
pub mod colony;
pub mod inventory;
pub mod state;
pub mod tasks;
pub mod util;
pub mod world;
