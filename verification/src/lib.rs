//! Event-driven log rotation.
//!
//! The library decides, for a watched append-only log file, when the file has
//! outgrown its size threshold and how the bounded ring of numbered backup
//! files must be shifted to absorb the overflow.  Every decision is a plain
//! value: the caller enumerates which backup files exist, hands in the live
//! file's current size, and receives a [`ring::ShiftPlan`] saying which backup
//! files to delete, which to rename, and where the evicted chunks go.  The
//! filesystem work itself (watching, memory mapping, extent collapse) is the
//! caller's, so the bookkeeping here is verified for every input.

pub mod errors;
pub mod ring;
pub mod model;
pub mod engine;
