//! The error type of the platform's link stores.
use vstd::prelude::*;

verus! {

/// Why a link store refused an operation.
pub enum Error<T> {
    /// The link does not exist.
    NotExists(T),
    /// The link cannot change because other links use it; each usage as its parts.
    HasUsages(Vec<Vec<T>>),
    /// A link with these parts already exists.
    AlreadyExists(Vec<T>),
    /// The store holds as many links as it can.
    LimitReached(T),
    /// The memory behind the store could not be allocated; the reason as text.
    AllocFailed(String),
    /// Any other internal error, as text.
    Other(String),
}

/// Compiles only when `T` can be sent to and shared between threads.
fn require_send_sync<T: Send + Sync>() {
}

/// Compiles only when the errors of a store over addresses `T` can be sent to and
/// shared between threads.
pub fn _assert_send_sync<T: Send + Sync>() {
    require_send_sync::<Error<T>>();
}

} // verus!
