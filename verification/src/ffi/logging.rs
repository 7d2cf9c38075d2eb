//! The settings of the log handle that the C interface installs.
use vstd::prelude::*;

verus! {

/// The most detailed level of log messages passed on.
#[derive(Clone, Copy, Debug, PartialEq, Eq, Structural)]
pub enum Level {
    Trace,
    Debug,
    Info,
    Warn,
    Error,
    Off,
}

/// How log messages are formatted.
#[derive(Clone, Copy, Debug, PartialEq, Eq, Structural)]
pub enum Format {
    Virgin,
    Pretty,
    Json,
}

/// The handle of an installed log subscriber.
pub struct DoubletsFFILogHandle;

} // verus!
