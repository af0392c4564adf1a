//! Watches version-controlled working copies and decides when each one is due
//! for an automatic commit-and-push.

pub mod config;
pub mod events;
pub mod git;
pub mod ignore_filter;
pub mod laws;
pub mod registry;
