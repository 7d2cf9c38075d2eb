//! The link triple, the source/target pair, and the errors of a store.
use crate::decorators::logging::{decimal, push_decimal};
use vstd::prelude::*;

verus! {

/// A link triple `(index, source, target)`: one node of the doublets graph.
#[derive(Clone, Copy, Debug, PartialEq, Eq, Structural, Hash)]
pub struct Link {
    /// Unique identifier of this link within the store.
    pub index: u64,
    /// The source (left) endpoint of this link.
    pub source: u64,
    /// The target (right) endpoint of this link.
    pub target: u64,
}

impl Link {
    /// The link with all three fields set to the null address.
    pub open spec fn null_link() -> Link {
        Link { index: 0, source: 0, target: 0 }
    }

    /// Returns the null link `(0, 0, 0)`.
    pub fn nothing() -> (r: Link)
        ensures
            r == Link::null_link(),
    {
        Link { index: 0, source: 0, target: 0 }
    }

    /// Creates a link with the given `index`, `source` and `target`.
    pub fn new(index: u64, source: u64, target: u64) -> (r: Link)
        ensures
            r == (Link { index, source, target }),
    {
        Link { index, source, target }
    }

    /// Creates a point: a link whose index, source and target are all `val`.
    pub fn point(val: u64) -> (r: Link)
        ensures
            r == (Link { index: val, source: val, target: val }),
    {
        Link { index: val, source: val, target: val }
    }

    /// The link made of the first three elements of `slice`: index, source, target.
    pub fn from_slice(slice: &[u64]) -> (r: Link)
        requires
            slice@.len() >= 3,
        ensures
            r == (Link { index: slice@[0], source: slice@[1], target: slice@[2] }),
    {
        Link { index: slice[0], source: slice[1], target: slice[2] }
    }

    /// The parts of the link in order: `[index, source, target]`.
    pub fn as_slice(&self) -> (r: [u64; 3])
        ensures
            r@ == seq![self.index, self.source, self.target],
    {
        let r = [self.index, self.source, self.target];
        assert(r@ =~= seq![self.index, self.source, self.target]);
        r
    }

    /// The link as its debug text: `index: source target`.
    pub fn debug_text(&self) -> (r: String)
        ensures
            r@ == decimal(self.index as nat) + seq![':', ' '] + decimal(self.source as nat) + seq![' '] + decimal(
                self.target as nat,
            ),
    {
        proof {
            reveal_strlit(": ");
            reveal_strlit(" ");
        }
        let mut s = String::new();
        push_decimal(&mut s, self.index);
        s.append(": ");
        push_decimal(&mut s, self.source);
        s.append(" ");
        push_decimal(&mut s, self.target);
        assert(s@ =~= decimal(self.index as nat) + seq![':', ' '] + decimal(self.source as nat) + seq![' '] + decimal(
            self.target as nat,
        ));
        s
    }

    /// `true` when this is the null link.
    pub fn is_null(&self) -> (r: bool)
        ensures
            r == (*self == Link::null_link()),
    {
        self.index == 0 && self.source == 0 && self.target == 0
    }

    /// `true` when the link is a full point: `index == source == target`.
    pub fn is_full(&self) -> (r: bool)
        ensures
            r == (self.index == self.source && self.index == self.target),
    {
        self.index == self.source && self.index == self.target
    }

    /// `true` when `index` equals `source` or `target`.
    pub fn is_partial(&self) -> (r: bool)
        ensures
            r == (self.index == self.source || self.index == self.target),
    {
        self.index == self.source || self.index == self.target
    }
}

impl Default for Link {
    /// The null link `(0, 0, 0)`.
    fn default() -> (r: Link)
        ensures
            r == Link::null_link(),
    {
        Link { index: 0, source: 0, target: 0 }
    }
}

/// A `(source, target)` pair: a link named by its endpoints, without an index.
#[derive(Clone, Copy, Debug, PartialEq, Eq, Structural, Hash)]
pub struct Doublet {
    /// The source (left) endpoint.
    pub source: u64,
    /// The target (right) endpoint.
    pub target: u64,
}

impl Doublet {
    /// The pair `(source, target)`.
    pub fn new(source: u64, target: u64) -> (r: Doublet)
        ensures
            r == (Doublet { source, target }),
    {
        Doublet { source, target }
    }

    /// The pair as text: `source->target`.
    pub fn to_string(&self) -> (r: String)
        ensures
            r@ == decimal(self.source as nat) + seq!['-', '>'] + decimal(self.target as nat),
    {
        proof {
            reveal_strlit("->");
        }
        let mut s = String::new();
        push_decimal(&mut s, self.source);
        s.append("->");
        push_decimal(&mut s, self.target);
        assert(s@ =~= decimal(self.source as nat) + seq!['-', '>'] + decimal(self.target as nat));
        s
    }
}

/// Why a store refused an operation.
#[derive(Debug)]
pub enum Error {
    /// The requested link does not exist in the store.
    NotExists(u64),
    /// The link cannot change because other links still reference it; those links.
    HasUsages(Vec<Link>),
    /// A link with the same `(source, target)` pair already exists.
    AlreadyExists(Doublet),
    /// The store holds as many links as it can; the largest address it can give.
    LimitReached(u64),
    /// The memory behind the store could not be allocated; the reason as text.
    AllocFailed(String),
    /// Any other internal error, as text.
    Other(String),
}

} // verus!
