//! Verified core of the Neural Deep desktop host.
use vstd::prelude::*;

pub mod backend;
pub mod config;
pub mod diff;
pub mod hub;
pub mod media;
pub mod paths;
pub mod sse;
pub mod text;

verus! {
} // verus!
