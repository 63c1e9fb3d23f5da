//! Tracks the state of a set of automated market makers as a chain advances,
//! keeping a bounded history of per-block snapshots so that the state can be
//! rolled back when the chain reorganises.

pub mod amm;
pub mod batch_laws;
pub mod cache;
pub mod laws;
pub mod error;
pub mod space;
pub mod state;
pub mod state_space_manager;
pub mod state_change;
