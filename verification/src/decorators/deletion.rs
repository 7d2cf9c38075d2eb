//! A decorator that resets a link before deleting it.
use crate::constants::LinksConstants;
use crate::data::{Error, Link};
use crate::handler::{Blown, ReadHandler, WriteHandler};
use crate::model::{added, each_outcome, extends, has_index, insert_sorted, lookup, matching, remove_index, replace_at};
use crate::platform::link::Flow;
use crate::traits::{create_effect, delete_effect, fused_calls, update_effect, updated_link, Doublets, Links};
use vstd::prelude::*;
use crate::decorators::helpers::{enforce_reset_values, part};

verus! {

/// Resets a link to `(null, null)` before deleting it.
pub struct NonNullContentsLinkDeletionResolver<L: Doublets> {
    links: L,
}

impl<L: Doublets> NonNullContentsLinkDeletionResolver<L> {
    /// The wrapped store.
    pub closed spec fn store(&self) -> L {
        self.links
    }

    /// Wraps `links`.
    pub fn new(links: L) -> (r: Self)
        ensures
            r.store() == links,
    {
        NonNullContentsLinkDeletionResolver { links }
    }

    /// The wrapped store.
    pub fn inner(&self) -> (r: &L)
        ensures
            *r == self.store(),
    {
        &self.links
    }

    /// Unwraps the decorator and returns the wrapped store.
    pub fn into_inner(self) -> (r: L)
        ensures
            r == self.store(),
    {
        self.links
    }

    /// The constants of the wrapped store.
    pub fn constants(&self) -> (r: &LinksConstants)
        requires
            self.store().inv(),
        ensures
            *r == self.store().constants_view(),
    {
        self.links.constants()
    }

    /// The link `index` of the wrapped store.
    pub fn get_link(&self, index: u64) -> (r: Option<Link>)
        requires
            self.store().inv(),
        ensures
            r == lookup(self.store().view(), index),
    {
        self.links.get_link(index)
    }

    /// The number of links that match `query`.
    pub fn count_links(&self, query: &[u64]) -> (r: u64)
        requires
            self.store().inv(),
        ensures
            r == matching(self.store().constants_view(), self.store().view(), query@).len(),
    {
        self.links.count_links(query)
    }

    /// `each_links` of the wrapped store.
    pub fn each_links<H: ReadHandler>(&self, query: &[u64], handler: &mut H) -> (r: Flow)
        requires
            self.store().inv(),
        ensures
            extends((*old(handler)).calls(), (*final(handler)).calls()),
            each_outcome(
                matching(self.store().constants_view(), self.store().view(), query@),
                added((*old(handler)).calls(), (*final(handler)).calls()),
                r,
            ),
    {
        self.links.each_links(query, handler)
    }

    /// `create_links` of the wrapped store.
    pub fn create_links<H: WriteHandler>(&mut self, query: &[u64], handler: &mut H) -> (r: Result<Flow, Error>)
        requires
            old(self).store().inv(),
        ensures
            final(self).store().inv(),
            final(self).store().constants_view() == old(self).store().constants_view(),
            create_effect(old(self).store().view(), old(self).store().next_index(), final(self).store().view(), (*old(handler)).calls(), (*final(handler)).calls(), r),
            r is Err <==> old(self).store().is_full(),
    {
        self.links.create_links(query, handler)
    }

    /// `update_links` of the wrapped store.
    pub fn update_links<H: WriteHandler>(&mut self, query: &[u64], change: &[u64], handler: &mut H) -> (r: Result<Flow, Error>)
        requires
            old(self).store().inv(),
        ensures
            final(self).store().inv(),
            final(self).store().constants_view() == old(self).store().constants_view(),
            update_effect(old(self).store().view(), query@, change@, final(self).store().view(), (*old(handler)).calls(), (*final(handler)).calls(), r),
    {
        self.links.update_links(query, change, handler)
    }

    /// Resets the link named by `query` to `(null, null)` when it is not already, then
    /// deletes it; both changes are reported to `handler` until it answers `Break`.
    pub fn delete_links<H: WriteHandler>(&mut self, query: &[u64], handler: &mut H) -> (r: Result<Flow, Error>)
        requires
            old(self).store().inv(),
        ensures
            final(self).store().inv(),
            final(self).store().constants_view() == old(self).store().constants_view(),
            ({
                let v = old(self).store().view();
                let index = crate::model::part(query@, 0);
                match lookup(v, index) {
                    None => {
                        &&& r == Err::<Flow, Error>(Error::NotExists(index))
                        &&& final(self).store().view() == v
                        &&& (*final(handler)).calls() == (*old(handler)).calls()
                    },
                    Some(link) => {
                        let reset = updated_link(index, 0, 0);
                        let events = if link.source == 0 && link.target == 0 {
                            seq![(link, Link::null_link())]
                        } else {
                            seq![(link, reset), (reset, Link::null_link())]
                        };
                        &&& r is Ok
                        &&& final(self).store().view() == remove_index(v, index)
                        &&& fused_calls((*old(handler)).calls(), events, (*final(handler)).calls())
                        &&& added((*old(handler)).calls(), (*final(handler)).calls()).len() == events.len() ==> r->Ok_0 == (*final(handler)).calls().last().2
                        &&& added((*old(handler)).calls(), (*final(handler)).calls()).len() < events.len() ==> r->Ok_0 == Flow::Break
                    },
                }
            }),
    {
        proof {
            self.links.lemma_inv();
        }
        let ghost v = self.links.view();
        let ghost h0 = handler.calls();
        let index = part(query, self.links.constants().index_part);
        let first = enforce_reset_values(&mut self.links, index, handler)?;
        proof {
            self.links.lemma_inv();
            let k = choose|k: int| 0 <= k < v.len() && v[k].index == index;
            crate::model::lemma_sorted_position(v, k);
            if !(v[k].source == 0 && v[k].target == 0) {
                let v1 = self.links.view();
                assert(v1 == v.update(k, updated_link(index, 0, 0)));
                assert(v1[k].index == index);
                crate::model::lemma_sorted_position(v1, k);
                assert(v1.remove(k) =~= v.remove(k));
            }
        }
        let r = if first.is_break() {
            let mut blown = Blown::new();
            let r = self.links.delete_links(query, &mut blown);
            proof {
                blown.lemma_all_break();
                if r is Ok {
                    assert(blown.calls().last().2 == Flow::Break);
                }
            }
            r
        } else {
            self.links.delete_links(query, handler)
        };
        proof {
            let calls = handler.calls();
            assert(calls.subrange(0, h0.len() as int) =~= h0);
        }
        r
    }
}

} // verus!
