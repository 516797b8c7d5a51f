//! Disclosure channels.
//!
//! Mixing a compliance-viewing branch with an ordinary incoming-viewing branch is a correlation
//! risk, so each channel is its own type and the compiler keeps them apart. Any type can be a
//! channel; its values are never used.
use vstd::prelude::*;

verus! {

/// Ordinary incoming-viewing channel.
#[derive(Debug, Clone, Copy, PartialEq, Eq, Hash)]
pub enum Incoming {
    /// The channel.
    Channel,
}

/// Owner-side compliance channel.
#[derive(Debug, Clone, Copy, PartialEq, Eq, Hash)]
pub enum Compliance {
    /// The channel.
    Channel,
}

/// Audit-committee channel.
#[derive(Debug, Clone, Copy, PartialEq, Eq, Hash)]
pub enum Audit {
    /// The channel.
    Channel,
}

} // verus!
