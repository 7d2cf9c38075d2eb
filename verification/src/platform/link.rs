//! Link patterns and the control flow that handlers return.
use core::ops::ControlFlow;
use vstd::prelude::*;

verus! {

/// A pattern over link addresses: any address, the link itself, or one address.
pub enum Link<T> {
    Any,
    ItSelf,
    Link(T),
}

/// What a handler asks of the traversal that called it.
#[derive(Clone, Copy, Debug, PartialEq, Eq, Structural, Hash)]
pub enum Flow {
    Continue,
    Break,
}

impl Flow {
    /// `true` for `Flow::Continue`.
    pub fn is_continue(&self) -> (r: bool)
        ensures
            r == (*self == Flow::Continue),
    {
        match self {
            Flow::Continue => true,
            Flow::Break => false,
        }
    }

    /// `true` for `Flow::Break`.
    pub fn is_break(&self) -> (r: bool)
        ensures
            r == (*self == Flow::Break),
    {
        match self {
            Flow::Continue => false,
            Flow::Break => true,
        }
    }

    /// The flow as a `ControlFlow`: `Continue` goes on with nothing, `Break` breaks with
    /// itself.
    pub fn branch(self) -> (r: ControlFlow<Flow, ()>)
        ensures
            r == (match self {
                Flow::Continue => ControlFlow::<Flow, ()>::Continue(()),
                Flow::Break => ControlFlow::<Flow, ()>::Break(Flow::Break),
            }),
    {
        match self {
            Flow::Continue => ControlFlow::Continue(()),
            Flow::Break => ControlFlow::Break(Flow::Break),
        }
    }

    /// The flow that goes on: `Continue`.
    pub fn from_output(output: ()) -> (r: Flow)
        ensures
            r == Flow::Continue,
    {
        Flow::Continue
    }

    /// The flow that a break carries on: `Break`.
    pub fn from_residual(residual: Flow) -> (r: Flow)
        ensures
            r == Flow::Break,
    {
        Flow::Break
    }
}

/// The flow of a `ControlFlow`: whether it goes on or breaks.
pub open spec fn flow_of<C, B>(flow: ControlFlow<C, B>) -> Flow {
    match flow {
        ControlFlow::Continue(_) => Flow::Continue,
        ControlFlow::Break(_) => Flow::Break,
    }
}

impl<C, B> From<ControlFlow<C, B>> for Flow {
    fn from(flow: ControlFlow<C, B>) -> (r: Flow) {
        match flow {
            ControlFlow::Continue(_) => Flow::Continue,
            ControlFlow::Break(_) => Flow::Break,
        }
    }
}

impl<C, B> vstd::std_specs::convert::FromSpecImpl<ControlFlow<C, B>> for Flow {
    open spec fn obeys_from_spec() -> bool {
        true
    }

    open spec fn from_spec(v: ControlFlow<C, B>) -> Flow {
        flow_of(v)
    }
}

} // verus!
