//! A decorator that answers a failed change with `Break` instead of an error.
use crate::constants::LinksConstants;
use crate::data::{Error, Link};
use crate::handler::{ReadHandler, WriteHandler};
use crate::model::{added, each_outcome, extends, lookup, matching};
use crate::platform::link::Flow;
use crate::traits::{create_effect, delete_effect, update_effect, Doublets, Links};
use vstd::prelude::*;

verus! {

/// Answers every failed change with `Ok(Break)`, leaving the store as it was.
pub struct NoExceptionsDecorator<L: Doublets> {
    links: L,
}

impl<L: Doublets> NoExceptionsDecorator<L> {
    /// The wrapped store.
    pub closed spec fn store(&self) -> L {
        self.links
    }

    /// Wraps `links`.
    pub fn new(links: L) -> (r: Self)
        ensures
            r.store() == links,
    {
        NoExceptionsDecorator { links }
    }

    /// The wrapped store.
    pub fn inner(&self) -> (r: &L)
        ensures
            *r == self.store(),
    {
        &self.links
    }

    /// Unwraps the decorator and returns the wrapped store.
    pub fn into_inner(self) -> (r: L)
        ensures
            r == self.store(),
    {
        self.links
    }

    /// The constants of the wrapped store.
    pub fn constants(&self) -> (r: &LinksConstants)
        requires
            self.store().inv(),
        ensures
            *r == self.store().constants_view(),
    {
        self.links.constants()
    }

    /// The link `index` of the wrapped store.
    pub fn get_link(&self, index: u64) -> (r: Option<Link>)
        requires
            self.store().inv(),
        ensures
            r == lookup(self.store().view(), index),
    {
        self.links.get_link(index)
    }

    /// The number of links that match `query`.
    pub fn count_links(&self, query: &[u64]) -> (r: u64)
        requires
            self.store().inv(),
        ensures
            r == matching(self.store().constants_view(), self.store().view(), query@).len(),
    {
        self.links.count_links(query)
    }

    /// `each_links` of the wrapped store.
    pub fn each_links<H: ReadHandler>(&self, query: &[u64], handler: &mut H) -> (r: Flow)
        requires
            self.store().inv(),
        ensures
            extends((*old(handler)).calls(), (*final(handler)).calls()),
            each_outcome(
                matching(self.store().constants_view(), self.store().view(), query@),
                added((*old(handler)).calls(), (*final(handler)).calls()),
                r,
            ),
    {
        self.links.each_links(query, handler)
    }

    /// `create_links` of the wrapped store, with a failure answered `Ok(Break)`.
    pub fn create_links<H: WriteHandler>(&mut self, query: &[u64], handler: &mut H) -> (r: Result<Flow, Error>)
        requires
            old(self).store().inv(),
        ensures
            final(self).store().inv(),
            final(self).store().constants_view() == old(self).store().constants_view(),
            r is Ok,
            create_effect(old(self).store().view(), old(self).store().next_index(), final(self).store().view(), (*old(handler)).calls(), (*final(handler)).calls(), r)
                || (r == Ok::<Flow, Error>(Flow::Break) && final(self).store().view() == old(self).store().view() && (*final(handler)).calls() == (*old(handler)).calls()),
    {
        match self.links.create_links(query, handler) {
            Ok(flow) => Ok(flow),
            Err(_) => Ok(Flow::Break),
        }
    }

    /// `update_links` of the wrapped store, with a failure answered `Ok(Break)`.
    pub fn update_links<H: WriteHandler>(&mut self, query: &[u64], change: &[u64], handler: &mut H) -> (r: Result<Flow, Error>)
        requires
            old(self).store().inv(),
        ensures
            final(self).store().inv(),
            final(self).store().constants_view() == old(self).store().constants_view(),
            r is Ok,
            update_effect(old(self).store().view(), query@, change@, final(self).store().view(), (*old(handler)).calls(), (*final(handler)).calls(), r)
                || (r == Ok::<Flow, Error>(Flow::Break) && final(self).store().view() == old(self).store().view() && (*final(handler)).calls() == (*old(handler)).calls()
                    && !crate::model::has_index(old(self).store().view(), crate::model::part(query@, 0))),
    {
        match self.links.update_links(query, change, handler) {
            Ok(flow) => Ok(flow),
            Err(_) => Ok(Flow::Break),
        }
    }

    /// `delete_links` of the wrapped store, with a failure answered `Ok(Break)`.
    pub fn delete_links<H: WriteHandler>(&mut self, query: &[u64], handler: &mut H) -> (r: Result<Flow, Error>)
        requires
            old(self).store().inv(),
        ensures
            final(self).store().inv(),
            final(self).store().constants_view() == old(self).store().constants_view(),
            r is Ok,
            delete_effect(old(self).store().view(), query@, final(self).store().view(), (*old(handler)).calls(), (*final(handler)).calls(), r)
                || (r == Ok::<Flow, Error>(Flow::Break) && final(self).store().view() == old(self).store().view() && (*final(handler)).calls() == (*old(handler)).calls()
                    && !crate::model::has_index(old(self).store().view(), crate::model::part(query@, 0))),
    {
        match self.links.delete_links(query, handler) {
            Ok(flow) => Ok(flow),
            Err(_) => Ok(Flow::Break),
        }
    }
}

} // verus!
