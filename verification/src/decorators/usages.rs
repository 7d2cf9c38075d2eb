//! Decorators that react to links which other links still use.
use crate::constants::LinksConstants;
use crate::data::{Error, Link};
use crate::handler::{ReadHandler, WriteHandler};
use crate::model::{added, each_outcome, extends, has_index, lookup, matching};
use crate::platform::link::Flow;
use crate::traits::{create_effect, delete_effect, update_effect, Doublets, Links};
use vstd::prelude::*;
use crate::decorators::helpers::{ensure_no_usages, holds, lemma_usage_links_contains, part, usage_links, usages_of};
use crate::handler::Blown;
use crate::model::{lemma_extends_refl, lemma_remove_index_contains, lemma_sorted_contains, position, remove_index, store_ok};
use crate::traits::{fused_calls, fused_prefix, lemma_fused_prefix_calls, lemma_fused_step, link_exists, usage_count};

verus! {

/// Rejects updates and deletions of a link that other links still use.
pub struct UsagesValidator<L: Doublets> {
    links: L,
}

impl<L: Doublets> UsagesValidator<L> {
    /// The wrapped store.
    pub closed spec fn store(&self) -> L {
        self.links
    }

    /// Wraps `links`.
    pub fn new(links: L) -> (r: Self)
        ensures
            r.store() == links,
    {
        UsagesValidator { links }
    }

    /// The wrapped store.
    pub fn inner(&self) -> (r: &L)
        ensures
            *r == self.store(),
    {
        &self.links
    }

    /// Unwraps the decorator and returns the wrapped store.
    pub fn into_inner(self) -> (r: L)
        ensures
            r == self.store(),
    {
        self.links
    }

    /// The constants of the wrapped store.
    pub fn constants(&self) -> (r: &LinksConstants)
        requires
            self.store().inv(),
        ensures
            *r == self.store().constants_view(),
    {
        self.links.constants()
    }

    /// The link `index` of the wrapped store.
    pub fn get_link(&self, index: u64) -> (r: Option<Link>)
        requires
            self.store().inv(),
        ensures
            r == lookup(self.store().view(), index),
    {
        self.links.get_link(index)
    }

    /// The number of links that match `query`.
    pub fn count_links(&self, query: &[u64]) -> (r: u64)
        requires
            self.store().inv(),
        ensures
            r == matching(self.store().constants_view(), self.store().view(), query@).len(),
    {
        self.links.count_links(query)
    }

    /// `each_links` of the wrapped store.
    pub fn each_links<H: ReadHandler>(&self, query: &[u64], handler: &mut H) -> (r: Flow)
        requires
            self.store().inv(),
        ensures
            extends((*old(handler)).calls(), (*final(handler)).calls()),
            each_outcome(
                matching(self.store().constants_view(), self.store().view(), query@),
                added((*old(handler)).calls(), (*final(handler)).calls()),
                r,
            ),
    {
        self.links.each_links(query, handler)
    }

    /// `create_links` of the wrapped store.
    pub fn create_links<H: WriteHandler>(&mut self, query: &[u64], handler: &mut H) -> (r: Result<Flow, Error>)
        requires
            old(self).store().inv(),
        ensures
            final(self).store().inv(),
            final(self).store().constants_view() == old(self).store().constants_view(),
            create_effect(old(self).store().view(), old(self).store().next_index(), final(self).store().view(), (*old(handler)).calls(), (*final(handler)).calls(), r),
            r is Err <==> old(self).store().is_full(),
    {
        self.links.create_links(query, handler)
    }

    /// Rejects an update of a link that other links use: `HasUsages`, listing them,
    /// changing nothing. Otherwise the update goes through.
    pub fn update_links<H: WriteHandler>(&mut self, query: &[u64], change: &[u64], handler: &mut H) -> (r: Result<Flow, Error>)
        requires
            old(self).store().inv(),
        ensures
            final(self).store().inv(),
            final(self).store().constants_view() == old(self).store().constants_view(),
            ({
                let c = old(self).store().constants_view();
                let v = old(self).store().view();
                let index = crate::model::part(query@, 0);
                if has_index(v, index) && usage_count(c, v, index) != 0 {
                    &&& r is Err
                    &&& r->Err_0 is HasUsages
                    &&& r->Err_0->HasUsages_0@ == usage_links(c, v, index)
                    &&& final(self).store().view() == v
                    &&& (*final(handler)).calls() == (*old(handler)).calls()
                } else {
                    update_effect(v, query@, change@, final(self).store().view(), (*old(handler)).calls(), (*final(handler)).calls(), r)
                }
            }),
    {
        proof {
            self.links.lemma_inv();
        }
        let index = part(query, self.links.constants().index_part);
        ensure_no_usages(&self.links, index)?;
        self.links.update_links(query, change, handler)
    }

    /// Rejects the deletion of a link that other links use: `HasUsages`, listing them,
    /// changing nothing. Otherwise the deletion goes through.
    pub fn delete_links<H: WriteHandler>(&mut self, query: &[u64], handler: &mut H) -> (r: Result<Flow, Error>)
        requires
            old(self).store().inv(),
        ensures
            final(self).store().inv(),
            final(self).store().constants_view() == old(self).store().constants_view(),
            ({
                let c = old(self).store().constants_view();
                let v = old(self).store().view();
                let index = crate::model::part(query@, 0);
                if has_index(v, index) && usage_count(c, v, index) != 0 {
                    &&& r is Err
                    &&& r->Err_0 is HasUsages
                    &&& r->Err_0->HasUsages_0@ == usage_links(c, v, index)
                    &&& final(self).store().view() == v
                    &&& (*final(handler)).calls() == (*old(handler)).calls()
                } else {
                    delete_effect(v, query@, final(self).store().view(), (*old(handler)).calls(), (*final(handler)).calls(), r)
                }
            }),
    {
        proof {
            self.links.lemma_inv();
        }
        let index = part(query, self.links.constants().index_part);
        ensure_no_usages(&self.links, index)?;
        self.links.delete_links(query, handler)
    }
}


/// `l` uses `x`: it is another link whose source or target is `x` (every other link
/// uses `any`).
pub open spec fn uses(c: LinksConstants, l: Link, x: u64) -> bool {
    l.index != x && (x == c.any || l.source == x || l.target == x)
}

/// The indices reached from `index` in at most `n` steps, each step going from a link
/// to the links of `links` that use it.
pub open spec fn reach(c: LinksConstants, links: Seq<Link>, index: u64, n: nat) -> Set<u64>
    decreases n,
{
    if n == 0 {
        set![index]
    } else {
        let prev = reach(c, links, index, (n - 1) as nat);
        prev.union(
            Set::new(
                |i: u64|
                    exists|k: int, y: u64|
                        0 <= k < links.len() && links[k].index == i && prev.contains(y) && #[trigger] uses(c, links[k], y),
            ),
        )
    }
}

/// `i` is `index`, or the index of a link of `links` that uses, directly or through
/// other links of `links`, `index`: the links a cascading deletion of `index` removes.
pub open spec fn in_cascade(c: LinksConstants, links: Seq<Link>, index: u64, i: u64) -> bool {
    exists|n: nat| #[trigger] reach(c, links, index, n).contains(i)
}

/// One more step: a stored link that uses a reached index is reached.
pub proof fn lemma_reach_step(c: LinksConstants, links: Seq<Link>, index: u64, n: nat, l: Link, y: u64)
    requires
        reach(c, links, index, n).contains(y),
        links.contains(l),
        uses(c, l, y),
    ensures
        reach(c, links, index, n + 1).contains(l.index),
{
    let k = choose|k: int| 0 <= k < links.len() && links[k] == l;
    assert(0 <= k < links.len() && links[k].index == l.index && reach(c, links, index, n).contains(y) && uses(c, links[k], y));
}

/// A set that holds `index` and every link of `links` that uses one of its members
/// holds every index reached from `index`.
pub proof fn lemma_reach_within(c: LinksConstants, links: Seq<Link>, index: u64, s: Set<u64>, n: nat)
    requires
        s.contains(index),
        forall|y: u64, l: Link| s.contains(y) && links.contains(l) && #[trigger] uses(c, l, y) ==> s.contains(l.index),
    ensures
        reach(c, links, index, n).subset_of(s),
    decreases n,
{
    if n > 0 {
        lemma_reach_within(c, links, index, s, (n - 1) as nat);
        let prev = reach(c, links, index, (n - 1) as nat);
        assert forall|i: u64| reach(c, links, index, n).contains(i) implies s.contains(i) by {
            if !prev.contains(i) {
                let (k, y) = choose|k: int, y: u64|
                    0 <= k < links.len() && links[k].index == i && prev.contains(y) && #[trigger] uses(c, links[k], y);
                assert(links.contains(links[k]));
            }
        }
    }
}

/// The indices of `links`.
pub open spec fn indices(links: Seq<Link>) -> Set<u64> {
    links.map_values(|l: Link| l.index).to_set()
}

/// The indices of `links` that `visited` does not hold.
pub open spec fn unvisited(links: Seq<Link>, visited: Seq<u64>) -> Set<u64> {
    indices(links).difference(visited.to_set())
}

/// What a cascade from `index` has left to do: twice the stored links not yet visited,
/// plus one while `index` is unvisited and stored, two while it is unvisited and not.
pub open spec fn cascade_measure(links: Seq<Link>, visited: Seq<u64>, index: u64) -> nat {
    2 * unvisited(links, visited).len() + if visited.contains(index) {
        0nat
    } else if has_index(links, index) {
        1nat
    } else {
        2nat
    }
}

/// The indices of `links` are the indices of its links, and finitely many.
pub proof fn lemma_indices(links: Seq<Link>, i: u64)
    ensures
        indices(links).contains(i) <==> has_index(links, i),
        indices(links).finite(),
{
    let m = links.map_values(|l: Link| l.index);
    vstd::seq_lib::seq_to_set_is_finite(m);
    if m.contains(i) {
        let k = choose|k: int| 0 <= k < m.len() && m[k] == i;
        assert(links[k].index == i);
    }
    if has_index(links, i) {
        let k = choose|k: int| 0 <= k < links.len() && links[k].index == i;
        assert(m[k] == i);
    }
}

/// A nested cascade call has less left to do than its caller: the caller's `index` is
/// visited now, the store only lost links, and the visited indices only grew.
pub proof fn lemma_measure_drop(
    v0: Seq<Link>,
    visited0: Seq<u64>,
    index: u64,
    v1: Seq<Link>,
    visited1: Seq<u64>,
    next: u64,
)
    requires
        !visited0.contains(index),
        visited1.contains(index),
        forall|i: u64| visited0.contains(i) ==> visited1.contains(i),
        forall|l: Link| v1.contains(l) ==> v0.contains(l),
        has_index(v1, next) || visited1.contains(next),
    ensures
        cascade_measure(v1, visited1, next) < cascade_measure(v0, visited0, index),
{
    let s0 = unvisited(v0, visited0);
    let s1 = unvisited(v1, visited1);
    lemma_indices(v0, index);
    assert forall|i: u64| s1.contains(i) implies s0.contains(i) by {
        lemma_indices(v1, i);
        lemma_indices(v0, i);
        let k = choose|k: int| 0 <= k < v1.len() && v1[k].index == i;
        assert(v1.contains(v1[k]));
        let j = choose|j: int| 0 <= j < v0.len() && v0[j] == v1[k];
        assert(v0[j].index == i);
    }
    assert(s0.finite());
    if has_index(v0, index) {
        assert(s0.contains(index));
        assert(s1.subset_of(s0.remove(index)));
        vstd::set_lib::lemma_len_subset(s1, s0.remove(index));
    } else {
        assert(s1.subset_of(s0));
        vstd::set_lib::lemma_len_subset(s1, s0);
    }
}


/// Pushing a value that a sequence lacks keeps it free of duplicates.
proof fn lemma_push_no_duplicates<A>(s: Seq<A>, x: A)
    requires
        s.no_duplicates(),
        !s.contains(x),
    ensures
        s.push(x).no_duplicates(),
{
    let t = s.push(x);
    assert forall|i: int, j: int| 0 <= i < t.len() && 0 <= j < t.len() && i != j implies t[i] != t[j] by {
        if i == s.len() {
            assert(s[j] == t[j]);
        } else if j == s.len() {
            assert(s[i] == t[i]);
        }
    }
}

/// The deletions a cascade from `index` reports: each link it removes, as
/// `(link, null link)`, once.
pub open spec fn cascade_events(c: LinksConstants, links: Seq<Link>, index: u64, events: Seq<(Link, Link)>) -> bool {
    &&& events.no_duplicates()
    &&& forall|k: int| 0 <= k < events.len() ==> (#[trigger] events[k]).1 == Link::null_link()
    &&& forall|l: Link| #[trigger] events.contains((l, Link::null_link())) <==> (links.contains(l) && in_cascade(c, links, index, l.index))
}

/// The state a cascading deletion carries through its nested calls.
struct Cascade {
    /// The indices whose deletion has begun, in the order it began.
    visited: Vec<u64>,
    /// The handler has answered `Break`: later deletions are not reported to it.
    done: bool,
    /// The store when the cascade began.
    top: Ghost<Seq<Link>>,
    /// The index the cascade began at.
    root: Ghost<u64>,
    /// The handler's record when the cascade began.
    start: Ghost<Seq<(Link, Link, Flow)>>,
    /// The deletions so far, as `(link, null link)`, in order.
    events: Ghost<Seq<(Link, Link)>>,
}

/// What holds of a cascade at every step, for a store holding `v` and a handler whose
/// record is `calls`: the store only lost links since the cascade began, each of them
/// visited; every visited index is reached from the root; the deletions so far are the
/// lost links, once each, and the handler received them until it answered `Break`.
spec fn cascade_ok(st: Cascade, c: LinksConstants, v: Seq<Link>, calls: Seq<(Link, Link, Flow)>) -> bool {
    let top = st.top@;
    let events = st.events@;
    &&& forall|l: Link| #[trigger] v.contains(l) ==> top.contains(l)
    &&& forall|l: Link| #[trigger] top.contains(l) && !v.contains(l) ==> st.visited@.contains(l.index)
    &&& forall|i: u64| #[trigger] st.visited@.contains(i) ==> in_cascade(c, top, st.root@, i)
    &&& fused_prefix(st.start@, events, calls, st.done)
    &&& forall|l: Link| #[trigger] events.contains((l, Link::null_link())) <==> (top.contains(l) && !v.contains(l))
    &&& forall|k: int| 0 <= k < events.len() ==> (#[trigger] events[k]).1 == Link::null_link()
    &&& events.no_duplicates()
}

/// What one call of `cascade` from `index` did, taking the store from `v0` to `v1` and
/// the visited indices from `vis0` to `vis1`. An index visited before returns at once.
/// Otherwise `index` is visited; the store lost only links newly visited; every link
/// of `v0` that uses a newly visited index is visited; every newly visited link of
/// `v0` is gone; and the call fails with `NotExists` exactly when `index` was not
/// stored.
spec fn cascade_step(
    c: LinksConstants,
    v0: Seq<Link>,
    vis0: Seq<u64>,
    index: u64,
    v1: Seq<Link>,
    vis1: Seq<u64>,
    r: Result<Flow, Error>,
    done: bool,
) -> bool {
    &&& forall|i: u64| vis0.contains(i) ==> #[trigger] vis1.contains(i)
    &&& forall|l: Link| #[trigger] v1.contains(l) ==> v0.contains(l)
    &&& forall|l: Link| #[trigger] v0.contains(l) && !v1.contains(l) ==> vis1.contains(l.index) && !vis0.contains(l.index)
    &&& forall|y: u64, l: Link|
        vis1.contains(y) && !vis0.contains(y) && v0.contains(l) && #[trigger] uses(c, l, y) ==> vis1.contains(l.index)
    &&& forall|l: Link|
        #[trigger] v0.contains(l) && vis1.contains(l.index) && !vis0.contains(l.index) && l.index != index ==> !v1.contains(l)
    &&& vis1.contains(index)
    &&& vis0.contains(index) ==> r == Ok::<Flow, Error>(Flow::Continue) && v1 == v0 && vis1 == vis0
    &&& !vis0.contains(index) ==> {
        &&& (r is Ok <==> has_index(v0, index))
        &&& r is Err ==> r == Err::<Flow, Error>(Error::NotExists(index))
        &&& r is Ok ==> !has_index(v1, index) && (r->Ok_0 == Flow::Break <==> done)
    }
}

/// Deletes every link that uses a link, and every link that uses those, before the
/// link itself; reference cycles are followed once.
pub struct CascadeUsagesResolver<L: Doublets> {
    links: L,
}

impl<L: Doublets> CascadeUsagesResolver<L> {
    /// The wrapped store.
    pub closed spec fn store(&self) -> L {
        self.links
    }

    /// Wraps `links`.
    pub fn new(links: L) -> (r: Self)
        ensures
            r.store() == links,
    {
        CascadeUsagesResolver { links }
    }

    /// The wrapped store.
    pub fn inner(&self) -> (r: &L)
        ensures
            *r == self.store(),
    {
        &self.links
    }

    /// Unwraps the decorator and returns the wrapped store.
    pub fn into_inner(self) -> (r: L)
        ensures
            r == self.store(),
    {
        self.links
    }

    /// The constants of the wrapped store.
    pub fn constants(&self) -> (r: &LinksConstants)
        requires
            self.store().inv(),
        ensures
            *r == self.store().constants_view(),
    {
        self.links.constants()
    }

    /// The link `index` of the wrapped store.
    pub fn get_link(&self, index: u64) -> (r: Option<Link>)
        requires
            self.store().inv(),
        ensures
            r == lookup(self.store().view(), index),
    {
        self.links.get_link(index)
    }

    /// The number of links that match `query`.
    pub fn count_links(&self, query: &[u64]) -> (r: u64)
        requires
            self.store().inv(),
        ensures
            r == matching(self.store().constants_view(), self.store().view(), query@).len(),
    {
        self.links.count_links(query)
    }

    /// `each_links` of the wrapped store.
    pub fn each_links<H: ReadHandler>(&self, query: &[u64], handler: &mut H) -> (r: Flow)
        requires
            self.store().inv(),
        ensures
            extends((*old(handler)).calls(), (*final(handler)).calls()),
            each_outcome(
                matching(self.store().constants_view(), self.store().view(), query@),
                added((*old(handler)).calls(), (*final(handler)).calls()),
                r,
            ),
    {
        self.links.each_links(query, handler)
    }

    /// `create_links` of the wrapped store.
    pub fn create_links<H: WriteHandler>(&mut self, query: &[u64], handler: &mut H) -> (r: Result<Flow, Error>)
        requires
            old(self).store().inv(),
        ensures
            final(self).store().inv(),
            final(self).store().constants_view() == old(self).store().constants_view(),
            create_effect(old(self).store().view(), old(self).store().next_index(), final(self).store().view(), (*old(handler)).calls(), (*final(handler)).calls(), r),
            r is Err <==> old(self).store().is_full(),
    {
        self.links.create_links(query, handler)
    }

    /// `update_links` of the wrapped store.
    pub fn update_links<H: WriteHandler>(&mut self, query: &[u64], change: &[u64], handler: &mut H) -> (r: Result<Flow, Error>)
        requires
            old(self).store().inv(),
        ensures
            final(self).store().inv(),
            final(self).store().constants_view() == old(self).store().constants_view(),
            update_effect(old(self).store().view(), query@, change@, final(self).store().view(), (*old(handler)).calls(), (*final(handler)).calls(), r),
    {
        self.links.update_links(query, change, handler)
    }

    /// Deletes `index` after every link that uses it, cascading: each such link is first
    /// cascaded the same way. An index already visited is skipped, so a cycle of
    /// references ends; a usage no longer stored is skipped.
    fn cascade<H: WriteHandler>(&mut self, index: u64, st: &mut Cascade, handler: &mut H) -> (r: Result<Flow, Error>)
        requires
            old(self).links.inv(),
            cascade_ok(*old(st), old(self).links.constants_view(), old(self).links.view(), (*old(handler)).calls()),
            in_cascade(old(self).links.constants_view(), old(st).top@, old(st).root@, index),
        ensures
            final(self).links.inv(),
            final(self).links.constants_view() == old(self).links.constants_view(),
            cascade_ok(*final(st), old(self).links.constants_view(), final(self).links.view(), (*final(handler)).calls()),
            final(st).top == old(st).top,
            final(st).root == old(st).root,
            final(st).start == old(st).start,
            cascade_step(
                old(self).links.constants_view(),
                old(self).links.view(),
                old(st).visited@,
                index,
                final(self).links.view(),
                final(st).visited@,
                r,
                final(st).done,
            ),
        decreases cascade_measure(old(self).links.view(), old(st).visited@, index),
    {
        proof {
            self.links.lemma_inv();
        }
        let ghost c = self.links.constants_view();
        let ghost v0 = self.links.view();
        let ghost vis0 = st.visited@;
        if holds(&st.visited, index) {
            return Ok(Flow::Continue);
        }
        st.visited.push(index);
        proof {
            let vis = st.visited@;
            assert(vis =~= vis0.push(index));
            assert forall|i: u64| #[trigger] vis.contains(i) <==> (vis0.contains(i) || i == index) by {
                if vis0.contains(i) {
                    let q = choose|q: int| 0 <= q < vis0.len() && vis0[q] == i;
                    assert(vis[q] == i);
                }
                if vis.contains(i) {
                    let q = choose|q: int| 0 <= q < vis.len() && vis[q] == i;
                    if q < vis0.len() {
                        assert(vis0[q] == i);
                    }
                }
                if i == index {
                    assert(vis[vis0.len() as int] == index);
                }
            }
            assert forall|i: u64| #[trigger] st.visited@.contains(i) implies in_cascade(c, st.top@, st.root@, i) by {
                if i != index {
                    assert(vis0.contains(i));
                }
            }
            assert forall|l: Link| #[trigger] st.top@.contains(l) && !v0.contains(l) implies st.visited@.contains(l.index) by {
                assert(vis0.contains(l.index));
            }
        }
        let usages = usages_of(&self.links, index);
        let mut k: usize = 0;
        while k < usages.len()
            invariant
                self.links.inv(),
                self.links.constants_view() == c,
                c == old(self).links.constants_view(),
                v0 == old(self).links.view(),
                vis0 == old(st).visited@,
                st.top == old(st).top,
                st.root == old(st).root,
                st.start == old(st).start,
                cascade_ok(*st, c, self.links.view(), handler.calls()),
                in_cascade(c, st.top@, st.root@, index),
                forall|l: Link| #[trigger] v0.contains(l) ==> st.top@.contains(l),
                !vis0.contains(index),
                st.visited@.contains(index),
                usages@ == usage_links(c, v0, index),
                k <= usages.len(),
                forall|i: u64| vis0.contains(i) ==> #[trigger] st.visited@.contains(i),
                forall|l: Link| #[trigger] self.links.view().contains(l) ==> v0.contains(l),
                forall|l: Link|
                    #[trigger] v0.contains(l) && !self.links.view().contains(l) ==> st.visited@.contains(l.index)
                        && !vis0.contains(l.index) && l.index != index,
                forall|y: u64, l: Link|
                    st.visited@.contains(y) && !vis0.contains(y) && y != index && v0.contains(l) && #[trigger] uses(c, l, y)
                        ==> st.visited@.contains(l.index),
                forall|l: Link|
                    #[trigger] v0.contains(l) && st.visited@.contains(l.index) && !vis0.contains(l.index) && l.index != index
                        ==> !self.links.view().contains(l),
                forall|j: int| 0 <= j < k ==> st.visited@.contains(#[trigger] usages@[j].index),
                has_index(v0, index) == has_index(self.links.view(), index),
            decreases usages.len() - k,
        {
            let usage = usages[k];
            proof {
                self.links.lemma_inv();
                assert(usages@.contains(usage));
                lemma_usage_links_contains(c, v0, index, usage);
            }
            let ghost v_j = self.links.view();
            let ghost vis_j = st.visited@;
            if usage.index != index && self.links.exist(usage.index) {
                let ghost u = usage.index;
                proof {
                    if !has_index(v_j, u) {
                        if v_j.contains(usage) {
                            let q = choose|q: int| 0 <= q < v_j.len() && v_j[q] == usage;
                            assert(has_index(v_j, u));
                        }
                        assert(vis_j.contains(u));
                    }
                    lemma_measure_drop(v0, vis0, index, v_j, vis_j, u);
                    let n = choose|n: nat| #[trigger] reach(c, st.top@, st.root@, n).contains(index);
                    lemma_reach_step(c, st.top@, st.root@, n, usage, index);
                    assert(reach(c, st.top@, st.root@, n + 1).contains(u));
                }
                let nested = self.cascade(usage.index, st, handler);
                proof {
                    self.links.lemma_inv();
                    if !vis_j.contains(u) {
                        assert(has_index(v_j, u)) by {
                            if !has_index(v_j, u) {
                                if v_j.contains(usage) {
                                    let q = choose|q: int| 0 <= q < v_j.len() && v_j[q] == usage;
                                    assert(has_index(v_j, u));
                                }
                            }
                        }
                    }
                }
                match nested {
                    Ok(_) => {},
                    Err(e) => {
                        return Err(e);
                    },
                }
                proof {
                    let v1 = self.links.view();
                    let vis1 = st.visited@;
                    assert forall|l: Link|
                        #[trigger] v0.contains(l) && !v1.contains(l) implies vis1.contains(l.index)
                            && !vis0.contains(l.index) && l.index != index by {
                        if v_j.contains(l) {
                            assert(vis1.contains(l.index) && !vis_j.contains(l.index));
                        }
                    }
                    assert forall|y: u64, l: Link|
                        vis1.contains(y) && !vis0.contains(y) && y != index && v0.contains(l) && #[trigger] uses(c, l, y)
                            implies vis1.contains(l.index) by {
                        if vis_j.contains(y) {
                            assert(vis_j.contains(l.index));
                        } else if !v_j.contains(l) {
                            assert(vis_j.contains(l.index));
                        }
                    }
                    assert forall|l: Link|
                        #[trigger] v0.contains(l) && vis1.contains(l.index) && !vis0.contains(l.index) && l.index != index
                            implies !v1.contains(l) by {
                        if vis_j.contains(l.index) {
                            assert(!v_j.contains(l));
                        } else if v_j.contains(l) && l.index == u {
                            assert(!has_index(v1, u));
                            if v1.contains(l) {
                                let q = choose|q: int| 0 <= q < v1.len() && v1[q] == l;
                                assert(has_index(v1, u));
                            }
                        }
                    }
                    assert forall|j: int| 0 <= j < k + 1 implies vis1.contains(#[trigger] usages@[j].index) by {
                        if j < k {
                            assert(vis_j.contains(usages@[j].index));
                        }
                    }
                    if has_index(v0, index) {
                        let q = choose|q: int| 0 <= q < v_j.len() && v_j[q].index == index;
                        assert(v_j.contains(v_j[q]));
                        assert(v0.contains(v_j[q]));
                        assert(v1.contains(v_j[q]));
                        let q1 = choose|q1: int| 0 <= q1 < v1.len() && v1[q1] == v_j[q];
                        assert(has_index(v1, index));
                    }
                    if has_index(v1, index) {
                        let q = choose|q: int| 0 <= q < v1.len() && v1[q].index == index;
                        assert(v1.contains(v1[q]));
                        assert(v_j.contains(v1[q]));
                        let q1 = choose|q1: int| 0 <= q1 < v_j.len() && v_j[q1] == v1[q];
                        assert(has_index(v_j, index));
                    }
                }
            } else {
                proof {
                    if usage.index != index {
                        if v_j.contains(usage) {
                            let q = choose|q: int| 0 <= q < v_j.len() && v_j[q] == usage;
                            assert(has_index(v_j, usage.index));
                            assert(store_ok(c, v_j));
                            assert(c.spec_is_internal(v_j[q].index));
                            assert(link_exists(c, v_j, usage.index));
                        }
                        assert(st.visited@.contains(usage.index));
                    }
                    assert forall|j: int| 0 <= j < k + 1 implies st.visited@.contains(#[trigger] usages@[j].index) by {
                        if j < k {
                            assert(vis_j.contains(usages@[j].index));
                        }
                    }
                }
            }
            k = k + 1;
        }
        let query = [index];
        proof {
            assert(query@ =~= seq![index]);
            self.links.lemma_inv();
        }
        let ghost v_before = self.links.view();
        let ghost calls_before = handler.calls();
        let ghost was_done = st.done;
        let result = if st.done {
            let mut blown = Blown::new();
            let deleted = self.links.delete_links(&query, &mut blown);
            proof {
                blown.lemma_all_break();
                if deleted is Ok {
                    assert(blown.calls()[blown.calls().len() - 1].2 == Flow::Break);
                }
            }
            deleted
        } else {
            self.links.delete_links(&query, handler)
        };
        let flow = match result {
            Ok(flow) => flow,
            Err(e) => {
                proof {
                    assert forall|y: u64, l: Link|
                        st.visited@.contains(y) && !vis0.contains(y) && v0.contains(l) && #[trigger] uses(c, l, y)
                            implies st.visited@.contains(l.index) by {
                        if y == index {
                            lemma_usage_links_contains(c, v0, index, l);
                            let j = choose|j: int| 0 <= j < usages@.len() && usages@[j] == l;
                            assert(st.visited@.contains(usages@[j].index));
                        }
                    }
                }
                return Err(e);
            },
        };
        let ghost deleted = lookup(v_before, index)->0;
        proof {
            if was_done {
                assert(flow == Flow::Break);
            }
            lemma_fused_step(st.start@, st.events@, calls_before, was_done, (deleted, Link::null_link()), handler.calls(), flow);
            let p = position(v_before, index);
            assert(v_before.contains(deleted));
            assert(!st.events@.contains((deleted, Link::null_link())));
            lemma_push_no_duplicates(st.events@, (deleted, Link::null_link()));
        }
        let ghost ev0 = st.events@;
        st.events = Ghost(st.events@.push((deleted, Link::null_link())));
        if flow.is_break() {
            st.done = true;
        }
        proof {
            self.links.lemma_inv();
            let v1 = self.links.view();
            let events = st.events@;
            assert forall|l: Link| #[trigger] v1.contains(l) implies v_before.contains(l) && l.index != index by {
                lemma_remove_index_contains(v_before, index, l);
            }
            assert forall|x: (Link, Link)| #[trigger] events.contains(x) <==> (ev0.contains(x) || x == (deleted, Link::null_link())) by {
                if ev0.contains(x) {
                    let q = choose|q: int| 0 <= q < ev0.len() && ev0[q] == x;
                    assert(events[q] == x);
                }
                if events.contains(x) {
                    let q = choose|q: int| 0 <= q < events.len() && events[q] == x;
                    if q < ev0.len() {
                        assert(ev0[q] == x);
                    }
                }
                if x == (deleted, Link::null_link()) {
                    assert(events[ev0.len() as int] == x);
                }
            }
            assert forall|l: Link|
                #[trigger] events.contains((l, Link::null_link())) <==> (st.top@.contains(l) && !v1.contains(l)) by {
                lemma_remove_index_contains(v_before, index, l);
                lemma_sorted_contains(v_before, l);
                lemma_sorted_contains(v_before, deleted);
                assert(ev0.contains((l, Link::null_link())) <==> (st.top@.contains(l) && !v_before.contains(l)));
            }
            assert forall|l: Link| #[trigger] st.top@.contains(l) && !v1.contains(l) implies st.visited@.contains(l.index) by {
                lemma_remove_index_contains(v_before, index, l);
            }
            assert forall|l: Link| #[trigger] v0.contains(l) && !v1.contains(l) implies st.visited@.contains(l.index)
                && !vis0.contains(l.index) by {
                lemma_remove_index_contains(v_before, index, l);
            }
            assert forall|y: u64, l: Link|
                st.visited@.contains(y) && !vis0.contains(y) && v0.contains(l) && #[trigger] uses(c, l, y)
                    implies st.visited@.contains(l.index) by {
                if y == index {
                    lemma_usage_links_contains(c, v0, index, l);
                    let j = choose|j: int| 0 <= j < usages@.len() && usages@[j] == l;
                    assert(st.visited@.contains(usages@[j].index));
                }
            }
            assert forall|l: Link|
                #[trigger] v0.contains(l) && st.visited@.contains(l.index) && !vis0.contains(l.index) && l.index != index
                    implies !v1.contains(l) by {
                lemma_remove_index_contains(v_before, index, l);
            }
            if has_index(v1, index) {
                let q = choose|q: int| 0 <= q < v1.len() && v1[q].index == index;
                assert(v1.contains(v1[q]));
            }
        }
        Ok(flow)
    }

    /// Deletes the link named by the index part of `query` after every link that uses
    /// it, directly or through other links, and reports each deletion to `handler`
    /// until it answers `Break`. The store then holds exactly the links that do not
    /// reach that index; `NotExists` when it was not stored, after the links that used
    /// it were deleted.
    pub fn delete_links<H: WriteHandler>(&mut self, query: &[u64], handler: &mut H) -> (r: Result<Flow, Error>)
        requires
            old(self).store().inv(),
        ensures
            final(self).store().inv(),
            final(self).store().constants_view() == old(self).store().constants_view(),
            ({
                let c = old(self).store().constants_view();
                let v = old(self).store().view();
                let index = crate::model::part(query@, 0);
                &&& forall|l: Link| #[trigger] final(self).store().view().contains(l) <==> (v.contains(l) && !in_cascade(c, v, index, l.index))
                &&& (r is Ok <==> has_index(v, index))
                &&& r is Err ==> r == Err::<Flow, Error>(Error::NotExists(index))
                &&& exists|events: Seq<(Link, Link)>|
                    cascade_events(c, v, index, events) && fused_calls((*old(handler)).calls(), events, (*final(handler)).calls())
                &&& r is Ok ==> (r->Ok_0 == Flow::Break <==> (added((*old(handler)).calls(), (*final(handler)).calls()).len() > 0
                    && added((*old(handler)).calls(), (*final(handler)).calls()).last().2 == Flow::Break))
            }),
    {
        proof {
            self.links.lemma_inv();
        }
        let ghost c = self.links.constants_view();
        let ghost v = self.links.view();
        let ghost calls0 = handler.calls();
        let index = part(query, self.links.constants().index_part);
        let mut st = Cascade {
            visited: Vec::new(),
            done: false,
            top: Ghost(v),
            root: Ghost(index),
            start: Ghost(calls0),
            events: Ghost(Seq::empty()),
        };
        proof {
            lemma_extends_refl(calls0);
            assert(added(calls0, calls0) =~= Seq::<(Link, Link, Flow)>::empty());
            assert(reach(c, v, index, 0).contains(index));
        }
        let r = self.cascade(index, &mut st, handler);
        proof {
            let v1 = self.links.view();
            let vis = st.visited@;
            let s = vis.to_set();
            assert forall|y: u64, l: Link| s.contains(y) && v.contains(l) && #[trigger] uses(c, l, y) implies s.contains(l.index) by {
                assert(vis.contains(y));
            }
            assert forall|i: u64| in_cascade(c, v, index, i) implies vis.contains(i) by {
                let n = choose|n: nat| #[trigger] reach(c, v, index, n).contains(i);
                lemma_reach_within(c, v, index, s, n);
            }
            assert forall|l: Link| #[trigger] v1.contains(l) <==> (v.contains(l) && !in_cascade(c, v, index, l.index)) by {
                if v.contains(l) && in_cascade(c, v, index, l.index) && v1.contains(l) {
                    if l.index == index {
                        let q = choose|q: int| 0 <= q < v1.len() && v1[q] == l;
                        assert(has_index(v1, index));
                        let q0 = choose|q0: int| 0 <= q0 < v.len() && v[q0] == l;
                        assert(has_index(v, index));
                    }
                }
                if v.contains(l) && !in_cascade(c, v, index, l.index) {
                    assert(!vis.contains(l.index));
                }
            }
            let events = st.events@;
            assert forall|l: Link| #[trigger] events.contains((l, Link::null_link())) <==> (v.contains(l) && in_cascade(c, v, index, l.index)) by {
                assert(v1.contains(l) <==> (v.contains(l) && !in_cascade(c, v, index, l.index)));
            }
            assert(cascade_events(c, v, index, events));
            lemma_fused_prefix_calls(calls0, events, handler.calls(), st.done);
            if r is Ok {
                let q = choose|q: int| 0 <= q < v.len() && v[q].index == index;
                assert(v.contains(v[q]));
                assert(in_cascade(c, v, index, index)) by {
                    assert(reach(c, v, index, 0).contains(index));
                }
                assert(events.contains((v[q], Link::null_link())));
                assert(events.len() > 0);
            }
        }
        r
    }
}

} // verus!
