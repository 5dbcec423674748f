//! An in-process ephemeral key-value store.
//!
//! Entries are written with an optional time-to-live, read back until they
//! expire, and eventually purged by a background reaper. All operations take
//! the current time as an explicit argument, in milliseconds on the caller's
//! clock, so that the expiry policy is a pure function of the table and the
//! observation instant.

pub mod api;
pub mod config;
pub mod json;
pub mod laws;
pub mod store;
