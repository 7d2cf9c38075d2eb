//! Decorators that add policy to a plain store: each wraps a store and intercepts some
//! of its operations, forwarding the rest unchanged.
pub mod helpers;
pub mod uniqueness;
pub mod usages;
pub mod existence;
pub mod constants;
pub mod deletion;
pub mod no_exceptions;
pub mod policy;
pub mod logging;
