//! Decorators that check, or establish, the existence of the links an operation
//! names.
use crate::constants::LinksConstants;
use crate::data::{Error, Link};
use crate::handler::{ReadHandler, WriteHandler};
use crate::model::{added, each_outcome, extends, has_index, lookup, matching};
use crate::platform::link::Flow;
use crate::traits::{create_effect, delete_effect, update_effect, Doublets, Links};
use vstd::prelude::*;
use crate::decorators::helpers::{
    ensure_created, ensure_inner_reference_exists, ensure_link_exists, first_missing_from, missing, part,
};
use crate::traits::link_exists;

verus! {

/// What `ensure_created` leaves of a store that held `v0`, asked for `addresses`: every
/// link of `v0` is still there, and every other link is `(n, null, null)` for an `n`
/// that was free, and, when it succeeded (`ok`), among the missing `addresses`.
pub open spec fn created_links(c: LinksConstants, v0: Seq<Link>, addresses: Seq<u64>, v1: Seq<Link>, ok: bool) -> bool {
    &&& forall|l: Link| #[trigger] v0.contains(l) ==> v1.contains(l)
    &&& forall|l: Link| #[trigger] v1.contains(l) && !v0.contains(l) ==> {
        &&& l.source == 0 && l.target == 0
        &&& !has_index(v0, l.index)
        &&& (ok ==> missing(c, v0, l.index, addresses))
    }
    &&& (forall|a: u64| !missing(c, v0, a, addresses)) ==> v1 == v0
}

/// Rejects an operation that names an internal address which is not stored.
pub struct InnerReferenceExistenceValidator<L: Doublets> {
    links: L,
}

impl<L: Doublets> InnerReferenceExistenceValidator<L> {
    /// The wrapped store.
    pub closed spec fn store(&self) -> L {
        self.links
    }

    /// Wraps `links`.
    pub fn new(links: L) -> (r: Self)
        ensures
            r.store() == links,
    {
        InnerReferenceExistenceValidator { links }
    }

    /// The wrapped store.
    pub fn inner(&self) -> (r: &L)
        ensures
            *r == self.store(),
    {
        &self.links
    }

    /// Unwraps the decorator and returns the wrapped store.
    pub fn into_inner(self) -> (r: L)
        ensures
            r == self.store(),
    {
        self.links
    }

    /// The constants of the wrapped store.
    pub fn constants(&self) -> (r: &LinksConstants)
        requires
            self.store().inv(),
        ensures
            *r == self.store().constants_view(),
    {
        self.links.constants()
    }

    /// The link `index` of the wrapped store.
    pub fn get_link(&self, index: u64) -> (r: Option<Link>)
        requires
            self.store().inv(),
        ensures
            r == lookup(self.store().view(), index),
    {
        self.links.get_link(index)
    }

    /// The number of links that match `query`.
    pub fn count_links(&self, query: &[u64]) -> (r: u64)
        requires
            self.store().inv(),
        ensures
            r == matching(self.store().constants_view(), self.store().view(), query@).len(),
    {
        self.links.count_links(query)
    }

    /// `create_links` of the wrapped store.
    pub fn create_links<H: WriteHandler>(&mut self, query: &[u64], handler: &mut H) -> (r: Result<Flow, Error>)
        requires
            old(self).store().inv(),
        ensures
            final(self).store().inv(),
            final(self).store().constants_view() == old(self).store().constants_view(),
            create_effect(old(self).store().view(), old(self).store().next_index(), final(self).store().view(), (*old(handler)).calls(), (*final(handler)).calls(), r),
            r is Err <==> old(self).store().is_full(),
    {
        self.links.create_links(query, handler)
    }

    /// Fails with `NotExists` for the first internal address of `query` that does not
    /// exist; otherwise reads as `each_links` does.
    pub fn try_each_links<H: ReadHandler>(&self, query: &[u64], handler: &mut H) -> (r: Result<Flow, Error>)
        requires
            self.store().inv(),
        ensures
            ({
                let c = self.store().constants_view();
                let v = self.store().view();
                let j = first_missing_from(c, v, query@, 0);
                if j == query@.len() {
                    &&& r is Ok
                    &&& extends((*old(handler)).calls(), (*final(handler)).calls())
                    &&& each_outcome(matching(c, v, query@), added((*old(handler)).calls(), (*final(handler)).calls()), r->Ok_0)
                } else {
                    &&& r == Err::<Flow, Error>(Error::NotExists(query@[j]))
                    &&& (*final(handler)).calls() == (*old(handler)).calls()
                }
            }),
    {
        ensure_inner_reference_exists(&self.links, query)?;
        Ok(self.links.each_links(query, handler))
    }

    /// Reads as `each_links` does, or visits nothing and answers `Continue` when
    /// `query` names an internal address that does not exist.
    pub fn each_links<H: ReadHandler>(&self, query: &[u64], handler: &mut H) -> (r: Flow)
        requires
            self.store().inv(),
        ensures
            ({
                let c = self.store().constants_view();
                let v = self.store().view();
                if first_missing_from(c, v, query@, 0) == query@.len() {
                    &&& extends((*old(handler)).calls(), (*final(handler)).calls())
                    &&& each_outcome(matching(c, v, query@), added((*old(handler)).calls(), (*final(handler)).calls()), r)
                } else {
                    &&& r == Flow::Continue
                    &&& (*final(handler)).calls() == (*old(handler)).calls()
                }
            }),
    {
        match self.try_each_links(query, handler) {
            Ok(flow) => flow,
            Err(_) => Flow::Continue,
        }
    }

    /// Rejects an update whose query or change names an internal address that does not
    /// exist: `NotExists` for the first such address, query first, changing nothing.
    pub fn update_links<H: WriteHandler>(&mut self, query: &[u64], change: &[u64], handler: &mut H) -> (r: Result<Flow, Error>)
        requires
            old(self).store().inv(),
        ensures
            final(self).store().inv(),
            final(self).store().constants_view() == old(self).store().constants_view(),
            ({
                let c = old(self).store().constants_view();
                let v = old(self).store().view();
                let jq = first_missing_from(c, v, query@, 0);
                let jc = first_missing_from(c, v, change@, 0);
                if jq != query@.len() {
                    &&& r == Err::<Flow, Error>(Error::NotExists(query@[jq]))
                    &&& final(self).store().view() == v
                    &&& (*final(handler)).calls() == (*old(handler)).calls()
                } else if jc != change@.len() {
                    &&& r == Err::<Flow, Error>(Error::NotExists(change@[jc]))
                    &&& final(self).store().view() == v
                    &&& (*final(handler)).calls() == (*old(handler)).calls()
                } else {
                    update_effect(v, query@, change@, final(self).store().view(), (*old(handler)).calls(), (*final(handler)).calls(), r)
                }
            }),
    {
        ensure_inner_reference_exists(&self.links, query)?;
        ensure_inner_reference_exists(&self.links, change)?;
        self.links.update_links(query, change, handler)
    }

    /// Rejects the deletion of a link that does not exist: `NotExists`, changing
    /// nothing.
    pub fn delete_links<H: WriteHandler>(&mut self, query: &[u64], handler: &mut H) -> (r: Result<Flow, Error>)
        requires
            old(self).store().inv(),
        ensures
            final(self).store().inv(),
            final(self).store().constants_view() == old(self).store().constants_view(),
            ({
                let c = old(self).store().constants_view();
                let v = old(self).store().view();
                let index = crate::model::part(query@, 0);
                if !link_exists(c, v, index) {
                    &&& r == Err::<Flow, Error>(Error::NotExists(index))
                    &&& final(self).store().view() == v
                    &&& (*final(handler)).calls() == (*old(handler)).calls()
                } else {
                    delete_effect(v, query@, final(self).store().view(), (*old(handler)).calls(), (*final(handler)).calls(), r)
                }
            }),
    {
        proof {
            self.links.lemma_inv();
        }
        let index = part(query, self.links.constants().index_part);
        ensure_link_exists(&self.links, index)?;
        self.links.delete_links(query, handler)
    }
}

/// Creates the links an update depends on before performing the update.
pub struct NonExistentDependenciesCreator<L: Doublets> {
    links: L,
}

impl<L: Doublets> NonExistentDependenciesCreator<L> {
    /// The wrapped store.
    pub closed spec fn store(&self) -> L {
        self.links
    }

    /// Wraps `links`.
    pub fn new(links: L) -> (r: Self)
        ensures
            r.store() == links,
    {
        NonExistentDependenciesCreator { links }
    }

    /// The wrapped store.
    pub fn inner(&self) -> (r: &L)
        ensures
            *r == self.store(),
    {
        &self.links
    }

    /// Unwraps the decorator and returns the wrapped store.
    pub fn into_inner(self) -> (r: L)
        ensures
            r == self.store(),
    {
        self.links
    }

    /// The constants of the wrapped store.
    pub fn constants(&self) -> (r: &LinksConstants)
        requires
            self.store().inv(),
        ensures
            *r == self.store().constants_view(),
    {
        self.links.constants()
    }

    /// The link `index` of the wrapped store.
    pub fn get_link(&self, index: u64) -> (r: Option<Link>)
        requires
            self.store().inv(),
        ensures
            r == lookup(self.store().view(), index),
    {
        self.links.get_link(index)
    }

    /// The number of links that match `query`.
    pub fn count_links(&self, query: &[u64]) -> (r: u64)
        requires
            self.store().inv(),
        ensures
            r == matching(self.store().constants_view(), self.store().view(), query@).len(),
    {
        self.links.count_links(query)
    }

    /// `each_links` of the wrapped store.
    pub fn each_links<H: ReadHandler>(&self, query: &[u64], handler: &mut H) -> (r: Flow)
        requires
            self.store().inv(),
        ensures
            extends((*old(handler)).calls(), (*final(handler)).calls()),
            each_outcome(
                matching(self.store().constants_view(), self.store().view(), query@),
                added((*old(handler)).calls(), (*final(handler)).calls()),
                r,
            ),
    {
        self.links.each_links(query, handler)
    }

    /// `create_links` of the wrapped store.
    pub fn create_links<H: WriteHandler>(&mut self, query: &[u64], handler: &mut H) -> (r: Result<Flow, Error>)
        requires
            old(self).store().inv(),
        ensures
            final(self).store().inv(),
            final(self).store().constants_view() == old(self).store().constants_view(),
            create_effect(old(self).store().view(), old(self).store().next_index(), final(self).store().view(), (*old(handler)).calls(), (*final(handler)).calls(), r),
            r is Err <==> old(self).store().is_full(),
    {
        self.links.create_links(query, handler)
    }

    /// `delete_links` of the wrapped store.
    pub fn delete_links<H: WriteHandler>(&mut self, query: &[u64], handler: &mut H) -> (r: Result<Flow, Error>)
        requires
            old(self).store().inv(),
        ensures
            final(self).store().inv(),
            final(self).store().constants_view() == old(self).store().constants_view(),
            delete_effect(old(self).store().view(), query@, final(self).store().view(), (*old(handler)).calls(), (*final(handler)).calls(), r),
    {
        self.links.delete_links(query, handler)
    }

    /// Creates the links that the source and target of `change` name (see
    /// `ensure_created`), then performs the update.
    pub fn update_links<H: WriteHandler>(&mut self, query: &[u64], change: &[u64], handler: &mut H) -> (r: Result<Flow, Error>)
        requires
            old(self).store().inv(),
        ensures
            final(self).store().inv(),
            final(self).store().constants_view() == old(self).store().constants_view(),
            ({
                let c = old(self).store().constants_view();
                let v = old(self).store().view();
                let wanted = seq![crate::model::part(change@, 1), crate::model::part(change@, 2)];
                ||| {
                    &&& r is Err
                    &&& (r->Err_0 is LimitReached || r->Err_0 is AllocFailed)
                    &&& created_links(c, v, wanted, final(self).store().view(), false)
                    &&& final(self).store().is_full()
                    &&& (*final(handler)).calls() == (*old(handler)).calls()
                }
                ||| exists|mid: Seq<Link>| {
                    &&& created_links(c, v, wanted, mid, true)
                    &&& L::fills_lowest_free() ==> forall|a: u64| #[trigger] missing(c, v, a, wanted)
                        && c.internal_range.start <= a <= c.internal_range.end ==> mid.contains(Link { index: a, source: 0, target: 0 })
                    &&& #[trigger] update_effect(mid, query@, change@, final(self).store().view(), (*old(handler)).calls(), (*final(handler)).calls(), r)
                }
            }),
    {
        proof {
            self.links.lemma_inv();
        }
        let constants = self.links.constants();
        let source = part(change, constants.source_part);
        let target = part(change, constants.target_part);
        let wanted = [source, target];
        proof {
            assert(wanted@ =~= seq![crate::model::part(change@, 1), crate::model::part(change@, 2)]);
        }
        ensure_created(&mut self.links, &wanted)?;
        let ghost mid = self.links.view();
        let r = self.links.update_links(query, change, handler);
        proof {
            assert(update_effect(mid, query@, change@, self.links.view(), (*old(handler)).calls(), handler.calls(), r));
        }
        r
    }
}

} // verus!
