//! A verified core for a hash-chained ledger of model interactions.
use vstd::prelude::*;

pub mod json;
pub mod text;
pub mod number;
pub mod jcs;
pub mod hash;
pub mod ulid;
pub mod timestamp;
pub mod ledger;
pub mod extract;
pub mod sse;
pub mod proxy;

verus! {
} // verus!
