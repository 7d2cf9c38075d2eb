use crate::constants::LinksConstants;
use crate::data::{Doublet, Error, Link};
use crate::decorators::helpers::{ensure_does_not_exist, part};
use crate::handler::{Blown, ReadHandler, WriteHandler};
use crate::model::{added, each_outcome, extends, has_index, lookup, matching, remove_index, lemma_sorted_position};
use crate::platform::link::Flow;
use crate::traits::{create_effect, delete_effect, fused_calls, update_effect, Doublets, Links};
use crate::decorators::helpers::{handler_broke, merge_events, merge_usages_fused, merged, usage_links};
use vstd::prelude::*;

verus! {

/// What resolving a conflict between `old` and the surviving link `new` does to a
/// store holding `v0`: when `old` is another link that exists it is deleted (which
/// fails with `NotExists` for an external address, changing nothing), and the
/// survivor is reported as `(survivor, survivor)` unless the handler answered
/// `Break` to the deletion.
pub open spec fn resolve_effect(c: LinksConstants, v0: Seq<Link>, old_link: u64, new_link: u64, v1: Seq<Link>, h0: Seq<(Link, Link, Flow)>, h1: Seq<(Link, Link, Flow)>, r: Result<Flow, Error>) -> bool {
    let survivor = lookup(v0, new_link)->0;
    if old_link != new_link && crate::traits::link_exists(c, v0, old_link) {
        if has_index(v0, old_link) {
            let deleted = (lookup(v0, old_link)->0, Link::null_link());
            &&& r is Ok
            &&& v1 == remove_index(v0, old_link)
            &&& h1.len() >= h0.len() + 1
            &&& h1.subrange(0, h0.len() as int) == h0
            &&& (h1[h0.len() as int].0, h1[h0.len() as int].1) == deleted
            &&& if h1[h0.len() as int].2 == Flow::Break {
                h1.len() == h0.len() + 1 && r->Ok_0 == Flow::Break
            } else {
                h1.len() == h0.len() + 2 && h1.last() == (survivor, survivor, r->Ok_0)
            }
        } else {
            &&& r == Err::<Flow, Error>(Error::NotExists(old_link))
            &&& v1 == v0
            &&& h1 == h0
        }
    } else {
        &&& r is Ok
        &&& v1 == v0
        &&& h1 == h0.push((survivor, survivor, r->Ok_0))
    }
}

/// Resolves an address conflict: deletes `old` when it is another link that exists,
/// then reports the surviving link `new` as unchanged.
pub fn resolve_address_change_conflict<L: Doublets, H: WriteHandler>(links: &mut L, old_link: u64, new_link: u64, handler: &mut H) -> (r: Result<Flow, Error>)
    requires
        old(links).inv(),
        has_index(old(links).view(), new_link),
    ensures
        final(links).inv(),
        final(links).constants_view() == old(links).constants_view(),
        resolve_effect(old(links).constants_view(), old(links).view(), old_link, new_link, final(links).view(), (*old(handler)).calls(), (*final(handler)).calls(), r),
{
    proof {
        links.lemma_inv();
    }
    let ghost v = links.view();
    let ghost h0 = handler.calls();
    let mut done = false;
    if old_link != new_link && links.exist(old_link) {
        let query = [old_link];
        proof {
            assert(query@ =~= seq![old_link]);
        }
        let flow = links.delete_links(&query, handler)?;
        if flow.is_break() {
            done = true;
        }
        proof {
            let k = choose|k: int| 0 <= k < v.len() && v[k].index == new_link;
            crate::model::lemma_remove_index_contains(v, old_link, v[k]);
            assert(v.contains(v[k]));
            assert(links.view().contains(v[k]));
            links.lemma_inv();
            crate::model::lemma_sorted_contains(links.view(), v[k]);
            lemma_sorted_position(v, k);
            assert(lookup(links.view(), new_link) == lookup(v, new_link));
        }
    }
    let ghost h_mid = handler.calls();
    let survivor = match links.get_link(new_link) {
        Some(link) => link,
        None => return Err(Error::NotExists(new_link)),
    };
    proof {
        let k = choose|k: int| 0 <= k < v.len() && v[k].index == new_link;
        lemma_sorted_position(v, k);
        assert(survivor == lookup(v, new_link)->0);
    }
    if done {
        proof {
            assert(handler.calls().subrange(0, h0.len() as int) =~= h0);
        }
        Ok(Flow::Break)
    } else {
        let flow = handler.handle(survivor, survivor);
        proof {
            assert(handler.calls() == h_mid.push((survivor, survivor, flow)));
            if h_mid.len() > h0.len() {
                assert(handler.calls().subrange(0, h0.len() as int) =~= h0);
                assert(handler.calls()[h0.len() as int] == h_mid[h0.len() as int]);
            }
        }
        Ok(flow)
    }
}

/// Rejects an update that would make two links share the same `(source, target)` pair.
pub struct UniquenessValidator<L: Doublets> {
    links: L,
}

impl<L: Doublets> UniquenessValidator<L> {
    /// The wrapped store.
    pub closed spec fn store(&self) -> L {
        self.links
    }

    /// Wraps `links`.
    pub fn new(links: L) -> (r: Self)
        ensures
            r.store() == links,
    {
        UniquenessValidator { links }
    }

    /// The wrapped store.
    pub fn inner(&self) -> (r: &L)
        ensures
            *r == self.store(),
    {
        &self.links
    }

    /// Unwraps the decorator and returns the wrapped store.
    pub fn into_inner(self) -> (r: L)
        ensures
            r == self.store(),
    {
        self.links
    }

    /// The constants of the wrapped store.
    pub fn constants(&self) -> (r: &LinksConstants)
        requires
            self.store().inv(),
        ensures
            *r == self.store().constants_view(),
    {
        self.links.constants()
    }

    /// The link `index` of the wrapped store.
    pub fn get_link(&self, index: u64) -> (r: Option<Link>)
        requires
            self.store().inv(),
        ensures
            r == lookup(self.store().view(), index),
    {
        self.links.get_link(index)
    }

    /// The number of links that match `query`.
    pub fn count_links(&self, query: &[u64]) -> (r: u64)
        requires
            self.store().inv(),
        ensures
            r == matching(self.store().constants_view(), self.store().view(), query@).len(),
    {
        self.links.count_links(query)
    }

    /// `each_links` of the wrapped store.
    pub fn each_links<H: ReadHandler>(&self, query: &[u64], handler: &mut H) -> (r: Flow)
        requires
            self.store().inv(),
        ensures
            extends((*old(handler)).calls(), (*final(handler)).calls()),
            each_outcome(
                matching(self.store().constants_view(), self.store().view(), query@),
                added((*old(handler)).calls(), (*final(handler)).calls()),
                r,
            ),
    {
        self.links.each_links(query, handler)
    }

    /// `create_links` of the wrapped store.
    pub fn create_links<H: WriteHandler>(&mut self, query: &[u64], handler: &mut H) -> (r: Result<Flow, Error>)
        requires
            old(self).store().inv(),
        ensures
            final(self).store().inv(),
            final(self).store().constants_view() == old(self).store().constants_view(),
            create_effect(old(self).store().view(), old(self).store().next_index(), final(self).store().view(), (*old(handler)).calls(), (*final(handler)).calls(), r),
            r is Err <==> old(self).store().is_full(),
    {
        self.links.create_links(query, handler)
    }

    /// `delete_links` of the wrapped store.
    pub fn delete_links<H: WriteHandler>(&mut self, query: &[u64], handler: &mut H) -> (r: Result<Flow, Error>)
        requires
            old(self).store().inv(),
        ensures
            final(self).store().inv(),
            final(self).store().constants_view() == old(self).store().constants_view(),
            delete_effect(old(self).store().view(), query@, final(self).store().view(), (*old(handler)).calls(), (*final(handler)).calls(), r),
    {
        self.links.delete_links(query, handler)
    }

    /// Rejects an update that would give a second link the `(source, target)` pair of
    /// `change`: `AlreadyExists`, changing nothing. Otherwise the update goes through.
    pub fn update_links<H: WriteHandler>(&mut self, query: &[u64], change: &[u64], handler: &mut H) -> (r: Result<Flow, Error>)
        requires
            old(self).store().inv(),
        ensures
            final(self).store().inv(),
            final(self).store().constants_view() == old(self).store().constants_view(),
            ({
                let c = old(self).store().constants_view();
                let source = crate::model::part(change@, 1);
                let target = crate::model::part(change@, 2);
                if matching(c, old(self).store().view(), seq![c.any, source, target]).len() != 0 {
                    &&& r == Err::<Flow, Error>(Error::AlreadyExists(Doublet { source, target }))
                    &&& final(self).store().view() == old(self).store().view()
                    &&& (*final(handler)).calls() == (*old(handler)).calls()
                } else {
                    update_effect(old(self).store().view(), query@, change@, final(self).store().view(), (*old(handler)).calls(), (*final(handler)).calls(), r)
                }
            }),
    {
        proof {
            self.links.lemma_inv();
        }
        let constants = self.links.constants();
        let source = part(change, constants.source_part);
        let target = part(change, constants.target_part);
        ensure_does_not_exist(&self.links, source, target)?;
        self.links.update_links(query, change, handler)
    }
}

/// Redirects an update that would produce a duplicate pair to the link that already
/// holds it, and deletes the now redundant link.
pub struct UniquenessResolver<L: Doublets> {
    links: L,
}

impl<L: Doublets> UniquenessResolver<L> {
    /// The wrapped store.
    pub closed spec fn store(&self) -> L {
        self.links
    }

    /// Wraps `links`.
    pub fn new(links: L) -> (r: Self)
        ensures
            r.store() == links,
    {
        UniquenessResolver { links }
    }

    /// The wrapped store.
    pub fn inner(&self) -> (r: &L)
        ensures
            *r == self.store(),
    {
        &self.links
    }

    /// Unwraps the decorator and returns the wrapped store.
    pub fn into_inner(self) -> (r: L)
        ensures
            r == self.store(),
    {
        self.links
    }

    /// The constants of the wrapped store.
    pub fn constants(&self) -> (r: &LinksConstants)
        requires
            self.store().inv(),
        ensures
            *r == self.store().constants_view(),
    {
        self.links.constants()
    }

    /// The link `index` of the wrapped store.
    pub fn get_link(&self, index: u64) -> (r: Option<Link>)
        requires
            self.store().inv(),
        ensures
            r == lookup(self.store().view(), index),
    {
        self.links.get_link(index)
    }

    /// The number of links that match `query`.
    pub fn count_links(&self, query: &[u64]) -> (r: u64)
        requires
            self.store().inv(),
        ensures
            r == matching(self.store().constants_view(), self.store().view(), query@).len(),
    {
        self.links.count_links(query)
    }

    /// `each_links` of the wrapped store.
    pub fn each_links<H: ReadHandler>(&self, query: &[u64], handler: &mut H) -> (r: Flow)
        requires
            self.store().inv(),
        ensures
            extends((*old(handler)).calls(), (*final(handler)).calls()),
            each_outcome(
                matching(self.store().constants_view(), self.store().view(), query@),
                added((*old(handler)).calls(), (*final(handler)).calls()),
                r,
            ),
    {
        self.links.each_links(query, handler)
    }

    /// `create_links` of the wrapped store.
    pub fn create_links<H: WriteHandler>(&mut self, query: &[u64], handler: &mut H) -> (r: Result<Flow, Error>)
        requires
            old(self).store().inv(),
        ensures
            final(self).store().inv(),
            final(self).store().constants_view() == old(self).store().constants_view(),
            create_effect(old(self).store().view(), old(self).store().next_index(), final(self).store().view(), (*old(handler)).calls(), (*final(handler)).calls(), r),
            r is Err <==> old(self).store().is_full(),
    {
        self.links.create_links(query, handler)
    }

    /// `delete_links` of the wrapped store.
    pub fn delete_links<H: WriteHandler>(&mut self, query: &[u64], handler: &mut H) -> (r: Result<Flow, Error>)
        requires
            old(self).store().inv(),
        ensures
            final(self).store().inv(),
            final(self).store().constants_view() == old(self).store().constants_view(),
            delete_effect(old(self).store().view(), query@, final(self).store().view(), (*old(handler)).calls(), (*final(handler)).calls(), r),
    {
        self.links.delete_links(query, handler)
    }

    /// Resolves the conflict: deletes `old` when it is another link that
    /// exists, then reports the surviving link `new` as unchanged.
    fn resolve_address_change_conflict<H: WriteHandler>(&mut self, old_link: u64, new_link: u64, handler: &mut H) -> (r: Result<Flow, Error>)
        requires
            old(self).store().inv(),
            has_index(old(self).store().view(), new_link),
        ensures
            final(self).store().inv(),
            final(self).store().constants_view() == old(self).store().constants_view(),
            resolve_effect(old(self).store().constants_view(), old(self).store().view(), old_link, new_link, final(self).store().view(), (*old(handler)).calls(), (*final(handler)).calls(), r),
    {
        resolve_address_change_conflict(&mut self.links, old_link, new_link, handler)
    }

    /// An update whose `(source, target)` pair is already stored in another link
    /// keeps that link instead: the link named by `query` is deleted (when it is
    /// another link that exists) and the surviving link is reported as unchanged.
    /// Otherwise the update goes through.
    pub fn update_links<H: WriteHandler>(&mut self, query: &[u64], change: &[u64], handler: &mut H) -> (r: Result<Flow, Error>)
        requires
            old(self).store().inv(),
        ensures
            final(self).store().inv(),
            final(self).store().constants_view() == old(self).store().constants_view(),
            ({
                let c = old(self).store().constants_view();
                let v = old(self).store().view();
                let m = matching(c, v, seq![c.any, crate::model::part(change@, 1), crate::model::part(change@, 2)]);
                if m.len() == 0 {
                    update_effect(v, query@, change@, final(self).store().view(), (*old(handler)).calls(), (*final(handler)).calls(), r)
                } else {
                    resolve_effect(c, v, crate::model::part(query@, 0), m[0].index, final(self).store().view(), (*old(handler)).calls(), (*final(handler)).calls(), r)
                }
            }),
    {
        proof {
            self.links.lemma_inv();
        }
        let constants = self.links.constants();
        let source = part(change, constants.source_part);
        let target = part(change, constants.target_part);
        let old_link = part(query, constants.index_part);
        match self.links.search(source, target) {
            None => self.links.update_links(query, change, handler),
            Some(new_link) => {
                proof {
                    let c = self.links.constants_view();
                    let m = matching(c, self.links.view(), seq![c.any, source, target]);
                    crate::model::lemma_matching_member(c, self.links.view(), seq![c.any, source, target], 0);
                    let k = choose|k: int| 0 <= k < self.links.view().len() && self.links.view()[k] == m[0];
                    assert(self.links.view()[k].index == new_link);
                }
                self.resolve_address_change_conflict(old_link, new_link, handler)
            },
        }
    }
}

/// The changes `merge_usages` reports re-pointing the users of `old` in `v` at `new`:
/// none when they are the same link.
pub open spec fn merge_changes(c: LinksConstants, v: Seq<Link>, old_link: u64, new_link: u64) -> Seq<(Link, Link)> {
    if old_link == new_link {
        Seq::<(Link, Link)>::empty()
    } else {
        merge_events(usage_links(c, v, old_link), old_link, new_link)
    }
}

/// What `CascadeUniquenessAndUsagesResolver` does to a store holding `v` when the
/// update of `old` conflicts with the stored link `new`: the links that use `old` are
/// re-pointed at `new` (`merge_usages`), reported to the handler until it answers
/// `Break`, and then the conflict is resolved (`resolve_effect`) on the store so
/// changed; once the handler has answered `Break` it hears nothing more and the
/// result is `Break`.
pub open spec fn merge_then_resolve(c: LinksConstants, v: Seq<Link>, old_link: u64, new_link: u64, v1: Seq<Link>, h0: Seq<(Link, Link, Flow)>, h1: Seq<(Link, Link, Flow)>, r: Result<Flow, Error>) -> bool {
    let v_mid = v.map_values(|l: Link| merged(l, old_link, new_link));
    exists|h_mid: Seq<(Link, Link, Flow)>| {
        &&& #[trigger] fused_calls(h0, merge_changes(c, v, old_link, new_link), h_mid)
        &&& if handler_broke(h0, h_mid) {
            &&& h1 == h_mid
            &&& r is Ok ==> r->Ok_0 == Flow::Break
            &&& exists|b0: Seq<(Link, Link, Flow)>, b1: Seq<(Link, Link, Flow)>| #[trigger] resolve_effect(c, v_mid, old_link, new_link, v1, b0, b1, r)
        } else {
            resolve_effect(c, v_mid, old_link, new_link, v1, h_mid, h1, r)
        }
    }
}

/// Like `UniquenessResolver`, but first re-points every link that used the redundant
/// link at the surviving one.
pub struct CascadeUniquenessAndUsagesResolver<L: Doublets> {
    links: L,
}

impl<L: Doublets> CascadeUniquenessAndUsagesResolver<L> {
    /// The wrapped store.
    pub closed spec fn store(&self) -> L {
        self.links
    }

    /// Wraps `links`.
    pub fn new(links: L) -> (r: Self)
        ensures
            r.store() == links,
    {
        CascadeUniquenessAndUsagesResolver { links }
    }

    /// The wrapped store.
    pub fn inner(&self) -> (r: &L)
        ensures
            *r == self.store(),
    {
        &self.links
    }

    /// Unwraps the decorator and returns the wrapped store.
    pub fn into_inner(self) -> (r: L)
        ensures
            r == self.store(),
    {
        self.links
    }

    /// The constants of the wrapped store.
    pub fn constants(&self) -> (r: &LinksConstants)
        requires
            self.store().inv(),
        ensures
            *r == self.store().constants_view(),
    {
        self.links.constants()
    }

    /// The link `index` of the wrapped store.
    pub fn get_link(&self, index: u64) -> (r: Option<Link>)
        requires
            self.store().inv(),
        ensures
            r == lookup(self.store().view(), index),
    {
        self.links.get_link(index)
    }

    /// The number of links that match `query`.
    pub fn count_links(&self, query: &[u64]) -> (r: u64)
        requires
            self.store().inv(),
        ensures
            r == matching(self.store().constants_view(), self.store().view(), query@).len(),
    {
        self.links.count_links(query)
    }

    /// `each_links` of the wrapped store.
    pub fn each_links<H: ReadHandler>(&self, query: &[u64], handler: &mut H) -> (r: Flow)
        requires
            self.store().inv(),
        ensures
            extends((*old(handler)).calls(), (*final(handler)).calls()),
            each_outcome(
                matching(self.store().constants_view(), self.store().view(), query@),
                added((*old(handler)).calls(), (*final(handler)).calls()),
                r,
            ),
    {
        self.links.each_links(query, handler)
    }

    /// `create_links` of the wrapped store.
    pub fn create_links<H: WriteHandler>(&mut self, query: &[u64], handler: &mut H) -> (r: Result<Flow, Error>)
        requires
            old(self).store().inv(),
        ensures
            final(self).store().inv(),
            final(self).store().constants_view() == old(self).store().constants_view(),
            create_effect(old(self).store().view(), old(self).store().next_index(), final(self).store().view(), (*old(handler)).calls(), (*final(handler)).calls(), r),
            r is Err <==> old(self).store().is_full(),
    {
        self.links.create_links(query, handler)
    }

    /// `delete_links` of the wrapped store.
    pub fn delete_links<H: WriteHandler>(&mut self, query: &[u64], handler: &mut H) -> (r: Result<Flow, Error>)
        requires
            old(self).store().inv(),
        ensures
            final(self).store().inv(),
            final(self).store().constants_view() == old(self).store().constants_view(),
            delete_effect(old(self).store().view(), query@, final(self).store().view(), (*old(handler)).calls(), (*final(handler)).calls(), r),
    {
        self.links.delete_links(query, handler)
    }

    /// An update whose `(source, target)` pair is already stored in another link `new`
    /// keeps that link instead: every link that uses the link named by `query` is first
    /// re-pointed at `new` (see `merge_usages`), then the conflict is resolved as
    /// `UniquenessResolver` resolves it. The handler hears every change until it
    /// answers `Break`. Otherwise the update goes through.
    pub fn update_links<H: WriteHandler>(&mut self, query: &[u64], change: &[u64], handler: &mut H) -> (r: Result<Flow, Error>)
        requires
            old(self).store().inv(),
        ensures
            final(self).store().inv(),
            final(self).store().constants_view() == old(self).store().constants_view(),
            ({
                let c = old(self).store().constants_view();
                let v = old(self).store().view();
                let m = matching(c, v, seq![c.any, crate::model::part(change@, 1), crate::model::part(change@, 2)]);
                let old_link = crate::model::part(query@, 0);
                if m.len() == 0 {
                    update_effect(v, query@, change@, final(self).store().view(), (*old(handler)).calls(), (*final(handler)).calls(), r)
                } else {
                    merge_then_resolve(c, v, old_link, m[0].index, final(self).store().view(), (*old(handler)).calls(), (*final(handler)).calls(), r)
                }
            }),
    {
        proof {
            self.links.lemma_inv();
        }
        let ghost c = self.links.constants_view();
        let ghost v = self.links.view();
        let ghost h0 = handler.calls();
        let constants = self.links.constants();
        let source = part(change, constants.source_part);
        let target = part(change, constants.target_part);
        let old_link = part(query, constants.index_part);
        match self.links.search(source, target) {
            None => self.links.update_links(query, change, handler),
            Some(new_link) => {
                proof {
                    let m = matching(c, v, seq![c.any, source, target]);
                    crate::model::lemma_matching_member(c, v, seq![c.any, source, target], 0);
                    let k = choose|k: int| 0 <= k < v.len() && v[k] == m[0];
                    assert(v[k].index == new_link);
                    assert(m[0].index == new_link);
                }
                let merged_flow = match merge_usages_fused(&mut self.links, old_link, new_link, handler) {
                    Ok(flow) => flow,
                    Err(e) => return Err(e),
                };
                let ghost h_mid = handler.calls();
                let ghost v_mid = self.links.view();
                proof {
                    assert(v_mid == v.map_values(|l: Link| merged(l, old_link, new_link)));
                    let k = choose|k: int| 0 <= k < v.len() && v[k].index == new_link;
                    assert(v_mid[k].index == new_link);
                    if old_link == new_link {
                        assert(v.map_values(|l: Link| merged(l, old_link, new_link)) =~= v);
                        assert(added(h0, h_mid) =~= Seq::<(Link, Link, Flow)>::empty());
                    }
                }
                if merged_flow.is_break() {
                    let mut blown = Blown::new();
                    let ghost b0 = blown.calls();
                    let r = resolve_address_change_conflict(&mut self.links, old_link, new_link, &mut blown);
                    proof {
                        blown.lemma_all_break();
                        assert(resolve_effect(c, v_mid, old_link, new_link, self.links.view(), b0, blown.calls(), r));
                        if r is Ok {
                            assert(blown.calls().len() > 0);
                            assert(blown.calls().last().2 == Flow::Break);
                        }
                    }
                    let result = match r {
                        Ok(_) => Ok(Flow::Break),
                        Err(e) => Err(e),
                    };
                    proof {
                        let events = merge_changes(c, v, old_link, new_link);
                        assert(fused_calls(h0, events, h_mid));
                        assert(handler_broke(h0, h_mid));
                        assert(resolve_effect(c, v_mid, old_link, new_link, self.links.view(), b0, blown.calls(), result));
                        assert(merge_then_resolve(c, v, old_link, new_link, self.links.view(), h0, handler.calls(), result));
                    }
                    result
                } else {
                    let result = resolve_address_change_conflict(&mut self.links, old_link, new_link, handler);
                    proof {
                        let events = merge_changes(c, v, old_link, new_link);
                        assert(fused_calls(h0, events, h_mid));
                        assert(!handler_broke(h0, h_mid));
                        assert(merge_then_resolve(c, v, old_link, new_link, self.links.view(), h0, handler.calls(), result));
                    }
                    result
                }
            },
        }
    }
}

} // verus!
