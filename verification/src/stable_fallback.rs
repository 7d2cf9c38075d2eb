//! The address types a store can use, and a control flow that carries a value.
use vstd::prelude::*;

verus! {

/// An unsigned integer type that can address links.
pub trait LinkType: Copy + Clone + PartialEq + PartialOrd + std::fmt::Debug {}

impl LinkType for u8 {}

impl LinkType for u16 {}

impl LinkType for u32 {}

impl LinkType for u64 {}

impl LinkType for usize {}

/// Control flow that carries a value when it breaks.
#[derive(Debug, Clone, Copy, PartialEq)]
pub enum Flow<T> {
    Continue,
    Break(T),
}

impl<T> Flow<T> {
    /// The value carried by `Break`, or `None` for `Continue`.
    pub fn into_break(self) -> (r: Option<T>)
        ensures
            r == (match self {
                Flow::Break(t) => Some(t),
                Flow::Continue => None,
            }),
    {
        match self {
            Flow::Break(t) => Some(t),
            Flow::Continue => None,
        }
    }
}

} // verus!
