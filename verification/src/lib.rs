//! Doublets: a store of links, each a triple `(index, source, target)`, with the
//! algorithms that read and rewrite such stores and the decorators that add policy
//! (uniqueness, usages, constant resolution) on top of a plain store.
pub mod constants;
pub mod data;
pub mod decorators;
pub mod platform;
pub mod stable_fallback;
pub mod handler;
pub mod model;
pub mod traits;
pub mod unit;
pub mod memory;
pub mod ffi;
pub mod laws;
pub mod small;

use vstd::prelude::*;

verus! {

/// The address `n`, widened from a byte.
pub fn funty(n: u8) -> (r: u64)
    ensures
        r == n,
{
    n as u64
}

} // verus!
