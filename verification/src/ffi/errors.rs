//! Errors and results as the C interface reports them.
use crate::data::{Doublet, Error, Link};
use crate::ffi::utils::OwnedSlice;
use crate::platform::link::Flow;
use vstd::prelude::*;

verus! {

/// How many bytes of a message of `message_len` bytes fit in a C buffer of
/// `buffer_size` bytes that must also hold the closing zero byte: the whole message when
/// it fits, else `buffer_size - 1`.
pub fn copied_length(message_len: usize, buffer_size: usize) -> (r: usize)
    requires
        buffer_size > 0,
    ensures
        r == (if message_len < buffer_size { message_len } else { (buffer_size - 1) as usize }),
        r < buffer_size,
{
    if message_len < buffer_size {
        message_len
    } else {
        buffer_size - 1
    }
}

/// An error of a store, laid out for C.
pub enum DoubletsError {
    NotExists(u64),
    LimitReached(u64),
    HasUsages(OwnedSlice<Link>),
    AlreadyExists(Doublet),
    AllocFailed(String),
    Other(String),
}

/// The outcome of an operation through the C interface: the flow it ended with, or
/// the error it failed with.
pub enum DoubletsResult {
    Continue,
    Break,
    NotExists(u64),
    LimitReached(u64),
    HasUsages(OwnedSlice<Link>),
    AlreadyExists(Doublet),
    AllocFailed(String),
    Other(String),
}

impl DoubletsResult {
    /// The result for an operation that ended with `flow`.
    pub fn from_branch(flow: Flow) -> (r: DoubletsResult)
        ensures
            flow == Flow::Continue ==> r is Continue,
            flow == Flow::Break ==> r is Break,
    {
        match flow {
            Flow::Continue => DoubletsResult::Continue,
            Flow::Break => DoubletsResult::Break,
        }
    }

    /// The result for an operation that failed with `err`.
    pub fn from_err(err: Error) -> (r: DoubletsResult)
        ensures
            match err {
                Error::NotExists(link) => r == DoubletsResult::NotExists(link),
                Error::HasUsages(usages) => r is HasUsages && r->HasUsages_0.items() == usages@,
                Error::AlreadyExists(exists) => r == DoubletsResult::AlreadyExists(exists),
                Error::LimitReached(limit) => r == DoubletsResult::LimitReached(limit),
                Error::AllocFailed(alloc) => r == DoubletsResult::AllocFailed(alloc),
                Error::Other(other) => r == DoubletsResult::Other(other),
            },
    {
        match err {
            Error::NotExists(link) => DoubletsResult::NotExists(link),
            Error::HasUsages(usages) => DoubletsResult::HasUsages(OwnedSlice::leak(usages)),
            Error::AlreadyExists(exists) => DoubletsResult::AlreadyExists(exists),
            Error::LimitReached(limit) => DoubletsResult::LimitReached(limit),
            Error::AllocFailed(alloc) => DoubletsResult::AllocFailed(alloc),
            Error::Other(other) => DoubletsResult::Other(other),
        }
    }
}

/// The result for an operation that failed with `err`.
pub fn acquire_error(err: Error) -> (r: DoubletsResult)
    ensures
        match err {
            Error::NotExists(link) => r == DoubletsResult::NotExists(link),
            Error::HasUsages(usages) => r is HasUsages && r->HasUsages_0.items() == usages@,
            Error::AlreadyExists(exists) => r == DoubletsResult::AlreadyExists(exists),
            Error::LimitReached(limit) => r == DoubletsResult::LimitReached(limit),
            Error::AllocFailed(alloc) => r == DoubletsResult::AllocFailed(alloc),
            Error::Other(other) => r == DoubletsResult::Other(other),
        },
{
    DoubletsResult::from_err(err)
}

/// The result of an operation that returned `result`.
pub fn acquire_result(result: Result<Flow, Error>) -> (r: DoubletsResult)
    ensures
        match result {
            Ok(flow) => (flow == Flow::Continue ==> r is Continue) && (flow == Flow::Break ==> r is Break),
            Err(Error::NotExists(link)) => r == DoubletsResult::NotExists(link),
            Err(Error::HasUsages(usages)) => r is HasUsages && r->HasUsages_0.items() == usages@,
            Err(Error::AlreadyExists(exists)) => r == DoubletsResult::AlreadyExists(exists),
            Err(Error::LimitReached(limit)) => r == DoubletsResult::LimitReached(limit),
            Err(Error::AllocFailed(alloc)) => r == DoubletsResult::AllocFailed(alloc),
            Err(Error::Other(other)) => r == DoubletsResult::Other(other),
        },
{
    match result {
        Ok(flow) => DoubletsResult::from_branch(flow),
        Err(err) => acquire_error(err),
    }
}

} // verus!
