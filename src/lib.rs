//! Load-order and active-plugin engine for plugin-based game engines.
//!
//! The library decides which plugins are valid, how they are ordered and which
//! of them are active, and repairs inconsistent persisted state. Reading and
//! writing files is left to the caller, who hands the library plain values.
use vstd::prelude::*;

pub mod profile;
pub mod plugin;
pub mod error;
pub mod order;
pub mod active;
pub mod engine;
pub mod timestamp;
pub mod cache;
