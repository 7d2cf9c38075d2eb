//! Decorators that give a service constant a meaning inside a change.
use crate::constants::LinksConstants;
use crate::data::{Error, Link};
use crate::handler::{Blown, ReadHandler, WriteHandler};
use crate::model::{added, each_outcome, extends, has_index, insert_sorted, lookup, matching, remove_index, replace_at};
use crate::platform::link::Flow;
use crate::traits::{create_effect, delete_effect, fused_calls, update_effect, updated_link, Doublets, Links};
use vstd::prelude::*;
use crate::decorators::helpers::{create_point_with, resolve_constant_as_self_reference, resolved};

verus! {

/// `true` when `values` holds `value`.
fn holds(values: &[u64], value: u64) -> (r: bool)
    ensures
        r == values@.contains(value),
{
    let mut i: usize = 0;
    while i < values.len()
        invariant
            i <= values@.len(),
            forall|j: int| 0 <= j < i ==> values@[j] != value,
        decreases values@.len() - i,
    {
        if values[i] == value {
            return true;
        }
        i = i + 1;
    }
    false
}

/// Turns the `itself` constant into a reference to the link being written.
pub struct ItselfConstantToSelfReferenceResolver<L: Doublets> {
    links: L,
}

impl<L: Doublets> ItselfConstantToSelfReferenceResolver<L> {
    /// The wrapped store.
    pub closed spec fn store(&self) -> L {
        self.links
    }

    /// Wraps `links`.
    pub fn new(links: L) -> (r: Self)
        ensures
            r.store() == links,
    {
        ItselfConstantToSelfReferenceResolver { links }
    }

    /// The wrapped store.
    pub fn inner(&self) -> (r: &L)
        ensures
            *r == self.store(),
    {
        &self.links
    }

    /// Unwraps the decorator and returns the wrapped store.
    pub fn into_inner(self) -> (r: L)
        ensures
            r == self.store(),
    {
        self.links
    }

    /// The constants of the wrapped store.
    pub fn constants(&self) -> (r: &LinksConstants)
        requires
            self.store().inv(),
        ensures
            *r == self.store().constants_view(),
    {
        self.links.constants()
    }

    /// The link `index` of the wrapped store.
    pub fn get_link(&self, index: u64) -> (r: Option<Link>)
        requires
            self.store().inv(),
        ensures
            r == lookup(self.store().view(), index),
    {
        self.links.get_link(index)
    }

    /// The number of links that match `query`.
    pub fn count_links(&self, query: &[u64]) -> (r: u64)
        requires
            self.store().inv(),
        ensures
            r == matching(self.store().constants_view(), self.store().view(), query@).len(),
    {
        self.links.count_links(query)
    }

    /// `create_links` of the wrapped store.
    pub fn create_links<H: WriteHandler>(&mut self, query: &[u64], handler: &mut H) -> (r: Result<Flow, Error>)
        requires
            old(self).store().inv(),
        ensures
            final(self).store().inv(),
            final(self).store().constants_view() == old(self).store().constants_view(),
            create_effect(old(self).store().view(), old(self).store().next_index(), final(self).store().view(), (*old(handler)).calls(), (*final(handler)).calls(), r),
            r is Err <==> old(self).store().is_full(),
    {
        self.links.create_links(query, handler)
    }

    /// `delete_links` of the wrapped store.
    pub fn delete_links<H: WriteHandler>(&mut self, query: &[u64], handler: &mut H) -> (r: Result<Flow, Error>)
        requires
            old(self).store().inv(),
        ensures
            final(self).store().inv(),
            final(self).store().constants_view() == old(self).store().constants_view(),
            delete_effect(old(self).store().view(), query@, final(self).store().view(), (*old(handler)).calls(), (*final(handler)).calls(), r),
    {
        self.links.delete_links(query, handler)
    }

    /// Reads as `each_links` does, except that a query naming the `itself` constant
    /// (when it differs from `any`) matches nothing: it visits no link and answers
    /// `Continue`.
    pub fn each_links<H: ReadHandler>(&self, query: &[u64], handler: &mut H) -> (r: Flow)
        requires
            self.store().inv(),
        ensures
            ({
                let c = self.store().constants_view();
                if c.any != c.itself && query@.contains(c.itself) {
                    &&& r == Flow::Continue
                    &&& (*final(handler)).calls() == (*old(handler)).calls()
                } else {
                    &&& extends((*old(handler)).calls(), (*final(handler)).calls())
                    &&& each_outcome(matching(c, self.store().view(), query@), added((*old(handler)).calls(), (*final(handler)).calls()), r)
                }
            }),
    {
        let constants = self.links.constants();
        if constants.any != constants.itself && holds(query, constants.itself) {
            return Flow::Continue;
        }
        self.links.each_links(query, handler)
    }

    /// Updates with `itself` in the source or target of `change` replaced by the index
    /// being written.
    pub fn update_links<H: WriteHandler>(&mut self, query: &[u64], change: &[u64], handler: &mut H) -> (r: Result<Flow, Error>)
        requires
            old(self).store().inv(),
        ensures
            final(self).store().inv(),
            final(self).store().constants_view() == old(self).store().constants_view(),
            update_effect(old(self).store().view(), query@, resolved(old(self).store().constants_view().itself, query@, change@, old(self).store().constants_view()), final(self).store().view(), (*old(handler)).calls(), (*final(handler)).calls(), r),
    {
        let constants = self.links.constants();
        let change = resolve_constant_as_self_reference(constants.itself, query, change, constants);
        self.links.update_links(query, &change, handler)
    }
}

/// Turns the null constant into a reference to the link being written, and makes a
/// bare create produce a point.
pub struct NullConstantToSelfReferenceResolver<L: Doublets> {
    links: L,
}

impl<L: Doublets> NullConstantToSelfReferenceResolver<L> {
    /// The wrapped store.
    pub closed spec fn store(&self) -> L {
        self.links
    }

    /// Wraps `links`.
    pub fn new(links: L) -> (r: Self)
        ensures
            r.store() == links,
    {
        NullConstantToSelfReferenceResolver { links }
    }

    /// The wrapped store.
    pub fn inner(&self) -> (r: &L)
        ensures
            *r == self.store(),
    {
        &self.links
    }

    /// Unwraps the decorator and returns the wrapped store.
    pub fn into_inner(self) -> (r: L)
        ensures
            r == self.store(),
    {
        self.links
    }

    /// The constants of the wrapped store.
    pub fn constants(&self) -> (r: &LinksConstants)
        requires
            self.store().inv(),
        ensures
            *r == self.store().constants_view(),
    {
        self.links.constants()
    }

    /// The link `index` of the wrapped store.
    pub fn get_link(&self, index: u64) -> (r: Option<Link>)
        requires
            self.store().inv(),
        ensures
            r == lookup(self.store().view(), index),
    {
        self.links.get_link(index)
    }

    /// The number of links that match `query`.
    pub fn count_links(&self, query: &[u64]) -> (r: u64)
        requires
            self.store().inv(),
        ensures
            r == matching(self.store().constants_view(), self.store().view(), query@).len(),
    {
        self.links.count_links(query)
    }

    /// `each_links` of the wrapped store.
    pub fn each_links<H: ReadHandler>(&self, query: &[u64], handler: &mut H) -> (r: Flow)
        requires
            self.store().inv(),
        ensures
            extends((*old(handler)).calls(), (*final(handler)).calls()),
            each_outcome(
                matching(self.store().constants_view(), self.store().view(), query@),
                added((*old(handler)).calls(), (*final(handler)).calls()),
                r,
            ),
    {
        self.links.each_links(query, handler)
    }

    /// `delete_links` of the wrapped store.
    pub fn delete_links<H: WriteHandler>(&mut self, query: &[u64], handler: &mut H) -> (r: Result<Flow, Error>)
        requires
            old(self).store().inv(),
        ensures
            final(self).store().inv(),
            final(self).store().constants_view() == old(self).store().constants_view(),
            delete_effect(old(self).store().view(), query@, final(self).store().view(), (*old(handler)).calls(), (*final(handler)).calls(), r),
    {
        self.links.delete_links(query, handler)
    }

    /// Creates a point: a link whose source and target are its own index (see
    /// `create_point_with`).
    pub fn create_links<H: WriteHandler>(&mut self, query: &[u64], handler: &mut H) -> (r: Result<Flow, Error>)
        requires
            old(self).store().inv(),
        ensures
            final(self).store().inv(),
            final(self).store().constants_view() == old(self).store().constants_view(),
            r is Err <==> old(self).store().is_full(),
            match r {
                Ok(flow) => {
                    let index = old(self).store().next_index();
                    let created = Link { index, source: 0, target: 0 };
                    let after = updated_link(index, index, index);
                    &&& !has_index(old(self).store().view(), index)
                    &&& final(self).store().view() == insert_sorted(old(self).store().view(), after)
                    &&& fused_calls((*old(handler)).calls(), seq![(Link::null_link(), created), (created, after)], (*final(handler)).calls())
                    &&& added((*old(handler)).calls(), (*final(handler)).calls()).len() == 2 ==> flow == (*final(handler)).calls().last().2
                    &&& added((*old(handler)).calls(), (*final(handler)).calls()).len() < 2 ==> flow == Flow::Break
                },
                Err(e) => {
                    &&& final(self).store().view() == old(self).store().view()
                    &&& (*final(handler)).calls() == (*old(handler)).calls()
                    &&& (e is LimitReached || e is AllocFailed)
                },
            },
    {
        create_point_with(&mut self.links, handler)
    }

    /// Updates with the null constant in the source or target of `change` replaced by
    /// the index being written.
    pub fn update_links<H: WriteHandler>(&mut self, query: &[u64], change: &[u64], handler: &mut H) -> (r: Result<Flow, Error>)
        requires
            old(self).store().inv(),
        ensures
            final(self).store().inv(),
            final(self).store().constants_view() == old(self).store().constants_view(),
            update_effect(old(self).store().view(), query@, resolved(old(self).store().constants_view().null, query@, change@, old(self).store().constants_view()), final(self).store().view(), (*old(handler)).calls(), (*final(handler)).calls(), r),
    {
        let constants = self.links.constants();
        let change = resolve_constant_as_self_reference(constants.null, query, change, constants);
        self.links.update_links(query, &change, handler)
    }
}

} // verus!
