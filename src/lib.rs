use vstd::prelude::*;

pub mod actions;
pub mod aggregator;
pub mod config;
pub mod engine;
pub mod crypto;
pub mod encoding;
pub mod error;
pub mod messages;

verus! {

} // verus!
