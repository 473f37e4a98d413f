//! Ground control: a verified core for an arena-game escort-bot controller.
//!
//! The library validates operator chat commands, tracks per-player wingman
//! fleets, and plans pursuit movement over an occupancy grid with verified
//! line-of-sight and shortest-path search.

pub mod commands;
pub mod path;
pub mod server;
pub mod types;
pub mod wing;
