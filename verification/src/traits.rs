//! The store interface: the primitive operations every store provides, and the
//! operations built on them.
use crate::constants::LinksConstants;
use crate::data::{Doublet, Error, Link};
use crate::handler::{
    single_fold, visited, Blown, Collector, FirstFinder, Ignore, ReadHandler, Recorder, SingleFinder,
    WriteHandler,
};
use crate::model::{
    lemma_each_all, lemma_filter_sorted, lemma_remove_index_contains, lemma_sorted_contains,
    lemma_matching_contains_iff, query_pred,
    added, each_outcome, extends, has_index, insert_sorted, lemma_matching_all, lemma_matching_contains,
    lemma_matching_member, lemma_replace_after_insert, lemma_sorted_position, lookup, matching, part,
    position, query_matches, remove_index, replace_at, sorted, store_ok,
};
use crate::platform::link::Flow;
use crate::small::{small_from, small_links, SmallLinks};
use vstd::prelude::*;

verus! {

/// What `create_links` does to a store holding `v0` whose next index is `next`: on
/// success it holds `v1`, which adds `(next, null, null)` in index order, and the
/// handler's record grew from `h0` to `h1` by that one change; on failure nothing
/// changed and the error says the store is full.
pub open spec fn create_effect(v0: Seq<Link>, next: u64, v1: Seq<Link>, h0: Seq<(Link, Link, Flow)>, h1: Seq<(Link, Link, Flow)>, r: Result<Flow, Error>) -> bool {
    match r {
        Ok(flow) => {
            let link = Link { index: next, source: 0, target: 0 };
            &&& !has_index(v0, next)
            &&& v1 == insert_sorted(v0, link)
            &&& h1 == h0.push((Link::null_link(), link, flow))
        },
        Err(e) => {
            &&& v1 == v0
            &&& h1 == h0
            &&& (e is LimitReached || e is AllocFailed)
        },
    }
}

/// What `update_links(query, change)` does to a store holding `v0`: when the link
/// named by the index part of `query` is stored, it takes the source and target parts
/// of `change` and the change is reported; otherwise `NotExists` and nothing changed.
pub open spec fn update_effect(v0: Seq<Link>, query: Seq<u64>, change: Seq<u64>, v1: Seq<Link>, h0: Seq<(Link, Link, Flow)>, h1: Seq<(Link, Link, Flow)>, r: Result<Flow, Error>) -> bool {
    let index = part(query, 0);
    let after = Link { index, source: part(change, 1), target: part(change, 2) };
    if has_index(v0, index) {
        &&& r is Ok
        &&& v1 == replace_at(v0, index, after)
        &&& h1 == h0.push((lookup(v0, index)->0, after, r->Ok_0))
    } else {
        &&& r == Err::<Flow, Error>(Error::NotExists(index))
        &&& v1 == v0
        &&& h1 == h0
    }
}

/// What `delete_links(query)` does to a store holding `v0`: when the link named by the
/// index part of `query` is stored, it is removed and reported as `(link, null link)`;
/// otherwise `NotExists` and nothing changed.
pub open spec fn delete_effect(v0: Seq<Link>, query: Seq<u64>, v1: Seq<Link>, h0: Seq<(Link, Link, Flow)>, h1: Seq<(Link, Link, Flow)>, r: Result<Flow, Error>) -> bool {
    let index = part(query, 0);
    if has_index(v0, index) {
        &&& r is Ok
        &&& v1 == remove_index(v0, index)
        &&& h1 == h0.push((lookup(v0, index)->0, Link::null_link(), r->Ok_0))
    } else {
        &&& r == Err::<Flow, Error>(Error::NotExists(index))
        &&& v1 == v0
        &&& h1 == h0
    }
}

/// The primitive operations of a links store.
///
/// A store holds links in index order (`view`). Reads visit the links that match a
/// query; `create_links` adds the link `(next_index, null, null)`; `update_links` sets
/// the source and target of one link; `delete_links` removes one link. Every change is
/// reported to the handler as the link before and after it.
pub trait Links: Sized {
    /// The stored links, in index order.
    spec fn view(&self) -> Seq<Link>;

    /// The constants of the store.
    spec fn constants_view(&self) -> LinksConstants;

    /// The store is well formed.
    spec fn inv(&self) -> bool;

    /// The index that the next successful `create_links` gives.
    spec fn next_index(&self) -> u64;

    /// The store can hold no more links: `create_links` fails.
    spec fn is_full(&self) -> bool;

    /// A well-formed store keeps its links in index order, with internal indices.
    proof fn lemma_inv(&self)
        requires
            self.inv(),
        ensures
            store_ok(self.constants_view(), self.view()),
    ;

    /// Whether the store always hands out the lowest free address of its internal range.
    spec fn fills_lowest_free() -> bool;

    /// A store that hands out the lowest free address, and is not full, has as its next
    /// index an internal address that is free, with every address from the start of the
    /// internal range below it taken.
    proof fn lemma_next_is_lowest_free(&self)
        requires
            self.inv(),
            Self::fills_lowest_free(),
            !self.is_full(),
        ensures
            self.constants_view().spec_is_internal(self.next_index()),
            !has_index(self.view(), self.next_index()),
            forall|a: u64|
                self.constants_view().internal_range.start <= a < self.next_index() ==> #[trigger] has_index(self.view(), a),
    ;

    /// The constants of the store.
    fn constants(&self) -> (r: &LinksConstants)
        requires
            self.inv(),
        ensures
            *r == self.constants_view(),
    ;

    /// The number of links that match `query`.
    fn count_links(&self, query: &[u64]) -> (r: u64)
        requires
            self.inv(),
        ensures
            r == matching(self.constants_view(), self.view(), query@).len(),
    ;

    /// Calls `handler` for each link that matches `query`, in index order, until it
    /// answers `Break`; returns `Break` if it did.
    fn each_links<H: ReadHandler>(&self, query: &[u64], handler: &mut H) -> (r: Flow)
        requires
            self.inv(),
        ensures
            extends((*old(handler)).calls(), (*final(handler)).calls()),
            each_outcome(
                matching(self.constants_view(), self.view(), query@),
                added((*old(handler)).calls(), (*final(handler)).calls()),
                r,
            ),
    ;

    /// Adds the link `(next_index, null, null)` and reports `(null link, new link)`.
    /// Fails, changing nothing, when the store can hold no more links.
    fn create_links<H: WriteHandler>(&mut self, query: &[u64], handler: &mut H) -> (r: Result<
        Flow,
        Error,
    >)
        requires
            old(self).inv(),
        ensures
            final(self).inv(),
            final(self).constants_view() == old(self).constants_view(),
            create_effect(old(self).view(), old(self).next_index(), final(self).view(), (*old(handler)).calls(), (*final(handler)).calls(), r),
            r is Err <==> old(self).is_full(),
            r is Err ==> *final(self) == *old(self),
    ;

    /// Sets the source and target of the link whose index is the index part of `query`
    /// to the source and target parts of `change`, and reports the link before and
    /// after. Fails with `NotExists`, changing nothing, when there is no such link.
    fn update_links<H: WriteHandler>(
        &mut self,
        query: &[u64],
        change: &[u64],
        handler: &mut H,
    ) -> (r: Result<Flow, Error>)
        requires
            old(self).inv(),
        ensures
            final(self).inv(),
            final(self).constants_view() == old(self).constants_view(),
            update_effect(old(self).view(), query@, change@, final(self).view(), (*old(handler)).calls(), (*final(handler)).calls(), r),
    ;

    /// Removes the link whose index is the index part of `query`, and reports
    /// `(removed link, null link)`. Fails with `NotExists`, changing nothing, when
    /// there is no such link.
    fn delete_links<H: WriteHandler>(&mut self, query: &[u64], handler: &mut H) -> (r: Result<
        Flow,
        Error,
    >)
        requires
            old(self).inv(),
        ensures
            final(self).inv(),
            final(self).constants_view() == old(self).constants_view(),
            delete_effect(old(self).view(), query@, final(self).view(), (*old(handler)).calls(), (*final(handler)).calls(), r),
    ;
}

/// The link an `update` with these parts leaves behind.
pub open spec fn updated_link(index: u64, source: u64, target: u64) -> Link {
    Link { index, source, target }
}

/// `calls` is `start` followed by the calls that a fused handler receives for the
/// changes `events`: each change in turn, until one is answered `Break`.
pub open spec fn fused_calls(start: Seq<(Link, Link, Flow)>, events: Seq<(Link, Link)>, calls: Seq<(Link, Link, Flow)>) -> bool {
    &&& extends(start, calls)
    &&& added(start, calls).len() <= events.len()
    &&& forall|i: int| 0 <= i < added(start, calls).len() ==> (#[trigger] added(start, calls)[i]).0 == events[i].0 && added(start, calls)[i].1 == events[i].1
    &&& forall|i: int| 0 <= i < added(start, calls).len() - 1 ==> (#[trigger] added(start, calls)[i]).2 == Flow::Continue
    &&& added(start, calls).len() < events.len() ==> added(start, calls).len() > 0 && added(start, calls).last().2 == Flow::Break
}

/// `calls` is `start` followed by what a fused handler received for `events` so far:
/// while it has not blown (`done` is false) it received every event and answered
/// `Continue`; once blown, its last answer was `Break` and it received nothing since.
pub open spec fn fused_prefix(start: Seq<(Link, Link, Flow)>, events: Seq<(Link, Link)>, calls: Seq<(Link, Link, Flow)>, done: bool) -> bool {
    &&& extends(start, calls)
    &&& added(start, calls).len() <= events.len()
    &&& forall|i: int| 0 <= i < added(start, calls).len() ==> (#[trigger] added(start, calls)[i]).0 == events[i].0 && added(start, calls)[i].1 == events[i].1
    &&& forall|i: int| 0 <= i < added(start, calls).len() - 1 ==> (#[trigger] added(start, calls)[i]).2 == Flow::Continue
    &&& done ==> added(start, calls).len() > 0 && added(start, calls).last().2 == Flow::Break
    &&& !done ==> added(start, calls).len() == events.len() && (events.len() == 0 || added(start, calls).last().2 == Flow::Continue)
}

/// One more event keeps a fused record: a blown handler hears nothing, a live one hears
/// the event, and blows if it answers `Break`.
pub proof fn lemma_fused_step(start: Seq<(Link, Link, Flow)>, events: Seq<(Link, Link)>, calls: Seq<(Link, Link, Flow)>, done: bool, event: (Link, Link), next: Seq<(Link, Link, Flow)>, flow: Flow)
    requires
        fused_prefix(start, events, calls, done),
        done ==> next == calls,
        !done ==> next == calls.push((event.0, event.1, flow)),
    ensures
        fused_prefix(start, events.push(event), next, done || flow == Flow::Break),
{
    if !done {
        crate::model::lemma_extends_push(start, calls, (event.0, event.1, flow));
    }
}

/// A complete fused record is a fused call sequence.
pub proof fn lemma_fused_prefix_calls(start: Seq<(Link, Link, Flow)>, events: Seq<(Link, Link)>, calls: Seq<(Link, Link, Flow)>, done: bool)
    requires
        fused_prefix(start, events, calls, done),
    ensures
        fused_calls(start, events, calls),
{
}

/// Whether `link` exists: an external address always does; an internal one does when
/// a link with that index is stored.
pub open spec fn link_exists(c: LinksConstants, links: Seq<Link>, link: u64) -> bool {
    c.spec_is_external(link) || (c.spec_is_internal(link) && has_index(links, link))
}

/// How many other links use `index` as source or target; a link counts once for each
/// of its parts that is `index`, and the link `index` itself is not counted for parts
/// that point at itself.
pub open spec fn usage_count(c: LinksConstants, links: Seq<Link>, index: u64) -> int {
    let link = lookup(links, index)->0;
    (matching(c, links, seq![c.any, index, c.any]).len() - (if link.source == index { 1int } else { 0int }))
        + (matching(c, links, seq![c.any, c.any, index]).len() - (if link.target == index { 1int } else { 0int }))
}

/// The indices of `links`, leaving out `index`.
pub open spec fn indices_except(links: Seq<Link>, index: u64) -> Seq<u64>
    decreases links.len(),
{
    if links.len() == 0 {
        Seq::empty()
    } else if links.last().index != index {
        indices_except(links.drop_last(), index).push(links.last().index)
    } else {
        indices_except(links.drop_last(), index)
    }
}

/// Every index in `indices_except(links, index)` is the index of one of `links`.
pub proof fn lemma_indices_except_member(links: Seq<Link>, index: u64, j: int)
    requires
        0 <= j < indices_except(links, index).len(),
    ensures
        exists|k: int| 0 <= k < links.len() && (#[trigger] links[k]).index == indices_except(links, index)[j],
    decreases links.len(),
{
    let sub = indices_except(links.drop_last(), index);
    if links.last().index != index && j == sub.len() {
        assert(links[links.len() - 1].index == indices_except(links, index)[j]);
    } else {
        lemma_indices_except_member(links.drop_last(), index, j);
        let k = choose|k: int| 0 <= k < links.drop_last().len() && (#[trigger] links.drop_last()[k]).index == sub[j];
        assert(links[k] == links.drop_last()[k]);
    }
}

/// The first position of `d`, from `j` on, whose value already occurs before it; the
/// length of `d` when there is none.
pub open spec fn first_repeat_from(d: Seq<u64>, j: int) -> int
    decreases d.len() - j,
{
    if j < 0 || j >= d.len() {
        d.len() as int
    } else if d.take(j).contains(d[j]) {
        j
    } else {
        first_repeat_from(d, j + 1)
    }
}

/// The indices that `delete_usages_with` deletes, in the order it deletes them: those
/// of the links using `index` as source, then as target, leaving out `index`; taken
/// from the last to the first.
pub open spec fn usages_to_delete(c: LinksConstants, links: Seq<Link>, index: u64) -> Seq<u64> {
    (indices_except(matching(c, links, seq![c.any, index, c.any]), index) + indices_except(
        matching(c, links, seq![c.any, c.any, index]),
        index,
    )).reverse()
}

/// `links` without those whose index is `index`.
pub open spec fn links_except(links: Seq<Link>, index: u64) -> Seq<Link>
    decreases links.len(),
{
    if links.len() == 0 {
        Seq::empty()
    } else if links.last().index != index {
        links_except(links.drop_last(), index).push(links.last())
    } else {
        links_except(links.drop_last(), index)
    }
}

/// A link is in `links_except(links, index)` exactly when it is in `links` and its
/// index is not `index`.
pub proof fn lemma_links_except_contains(links: Seq<Link>, index: u64, link: Link)
    ensures
        links_except(links, index).contains(link) <==> (links.contains(link) && link.index != index),
    decreases links.len(),
{
    if links.len() > 0 {
        lemma_links_except_contains(links.drop_last(), index, link);
        let sub = links_except(links.drop_last(), index);
        if links.contains(link) && link.index != index {
            let k = choose|k: int| 0 <= k < links.len() && links[k] == link;
            if k < links.len() - 1 {
                assert(links.drop_last()[k] == link);
            }
        }
        if links.drop_last().contains(link) {
            let k = choose|k: int| 0 <= k < links.drop_last().len() && links.drop_last()[k] == link;
            assert(links[k] == link);
        }
        if links.last().index != index {
            if links_except(links, index).contains(link) {
                let k = choose|k: int| 0 <= k < sub.len() + 1 && links_except(links, index)[k] == link;
                if k < sub.len() {
                    assert(sub[k] == link);
                } else {
                    assert(links[links.len() - 1] == link);
                }
            }
            if sub.contains(link) {
                let k = choose|k: int| 0 <= k < sub.len() && sub[k] == link;
                assert(links_except(links, index)[k] == link);
            }
            if link == links.last() {
                assert(links_except(links, index)[sub.len() as int] == link);
            }
        }
    }
}

/// The links `rebase_with` goes over: those other than `old` that use it as source, then
/// those other than `old` that use it as target (a link that uses it both ways comes
/// twice).
pub open spec fn rebase_usages(c: LinksConstants, links: Seq<Link>, old_link: u64) -> Seq<Link> {
    links_except(matching(c, links, seq![c.any, old_link, c.any]), old_link) + links_except(
        matching(c, links, seq![c.any, c.any, old_link]),
        old_link,
    )
}

/// The changes `rebase_with` makes for the usage `usage`, whose link reads `cur` when
/// its turn comes: the source set to `new` when the usage has it as source, then the
/// target set to `new` when the usage has it as target.
pub open spec fn rebase_usage_events(cur: Link, usage: Link, old_link: u64, new_link: u64) -> Seq<(Link, Link)> {
    let after_source = Link { index: usage.index, source: new_link, target: usage.target };
    let source_now = if usage.source == old_link {
        new_link
    } else {
        usage.source
    };
    let after_target = Link { index: usage.index, source: source_now, target: new_link };
    let first = if usage.source == old_link {
        seq![(cur, after_source)]
    } else {
        Seq::empty()
    };
    let cur2 = if usage.source == old_link {
        after_source
    } else {
        cur
    };
    let second = if usage.target == old_link {
        seq![(cur2, after_target)]
    } else {
        Seq::empty()
    };
    first + second
}

/// The changes `rebase_with` makes going over the usages `usages` in order: a usage met
/// before reads as rebased when it comes again.
pub open spec fn rebase_events(usages: Seq<Link>, old_link: u64, new_link: u64) -> Seq<(Link, Link)>
    decreases usages.len(),
{
    if usages.len() == 0 {
        Seq::empty()
    } else {
        let prev = usages.drop_last();
        let usage = usages.last();
        let cur = if prev.contains(usage) {
            rebased(usage, old_link, new_link)
        } else {
            usage
        };
        rebase_events(prev, old_link, new_link) + rebase_usage_events(cur, usage, old_link, new_link)
    }
}

/// What `rebase_with` leaves of a link: a link other than `old` gets `new` in place of
/// `old` in its source and in its target; `old` itself stays as it is.
pub open spec fn rebased(link: Link, old_link: u64, new_link: u64) -> Link {
    if link.index != old_link {
        Link {
            index: link.index,
            source: if link.source == old_link { new_link } else { link.source },
            target: if link.target == old_link { new_link } else { link.target },
        }
    } else {
        link
    }
}

/// Appends to `out` the links of `links`, leaving out those whose index is `index`.
pub fn push_links_except(out: &mut Vec<Link>, links: &Vec<Link>, index: u64)
    ensures
        final(out)@ == old(out)@ + links_except(links@, index),
{
    let mut i: usize = 0;
    while i < links.len()
        invariant
            i <= links@.len(),
            out@ == old(out)@ + links_except(links@.take(i as int), index),
        decreases links@.len() - i,
    {
        proof {
            assert(links@.take(i as int + 1).drop_last() =~= links@.take(i as int));
        }
        if links[i].index != index {
            out.push(links[i]);
        }
        i = i + 1;
    }
    proof {
        assert(links@.take(i as int) =~= links@);
    }
}

/// The links that match `query`, in index order.
pub fn collect_links<L: Links>(links: &L, query: &[u64]) -> (r: Vec<Link>)
    requires
        links.inv(),
    ensures
        r@ == matching(links.constants_view(), links.view(), query@),
{
    let mut collector = Collector::new();
    let flow = links.each_links(query, &mut collector);
    let ghost ext = collector.calls();
    proof {
        assert(ext.subrange(0, 0) =~= Seq::<(Link, Flow)>::empty());
        assert(added(Seq::<(Link, Flow)>::empty(), ext) =~= ext);
    }
    let r = collector.into_links();
    proof {
        lemma_each_all(matching(links.constants_view(), links.view(), query@), ext, flow);
        assert(visited(ext) =~= ext.map_values(|c: (Link, Flow)| c.0));
    }
    r
}

/// Appends to `out` the indices of `links`, leaving out `index`.
pub fn push_indices_except(out: &mut Vec<u64>, links: &Vec<Link>, index: u64)
    ensures
        final(out)@ == old(out)@ + indices_except(links@, index),
{
    let mut i: usize = 0;
    while i < links.len()
        invariant
            i <= links@.len(),
            out@ == old(out)@ + indices_except(links@.take(i as int), index),
        decreases links@.len() - i,
    {
        proof {
            assert(links@.take(i as int + 1).drop_last() =~= links@.take(i as int));
        }
        if links[i].index != index {
            out.push(links[i].index);
        }
        i = i + 1;
    }
    proof {
        assert(links@.take(i as int) =~= links@);
    }
}

/// For an internal address, which `any` is not, counting `[address]` counts the one
/// link with that index, if it is stored.
pub proof fn lemma_count_index(c: LinksConstants, links: Seq<Link>, index: u64)
    requires
        store_ok(c, links),
        c.spec_is_internal(index),
    ensures
        (matching(c, links, seq![index]).len() != 0) == has_index(links, index),
{
    if has_index(links, index) {
        let k = choose|k: int| 0 <= k < links.len() && links[k].index == index;
        lemma_matching_contains(c, links, seq![index], k);
    } else if matching(c, links, seq![index]).len() != 0 {
        lemma_matching_member(c, links, seq![index], 0);
        let l = matching(c, links, seq![index])[0];
        let k = choose|k: int| 0 <= k < links.len() && links[k] == l;
        assert(links[k].index == index);
    }
}

/// The store operations built on the primitives of `Links`.
pub trait Doublets: Links {
    /// The link with index `index`, if it is stored.
    fn get_link(&self, index: u64) -> (r: Option<Link>)
        requires
            self.inv(),
        ensures
            r == lookup(self.view(), index),
    ;

    /// The number of links that match `query`.
    fn count_by(&self, query: &[u64]) -> (r: u64)
        requires
            self.inv(),
        ensures
            r == matching(self.constants_view(), self.view(), query@).len(),
    {
        self.count_links(query)
    }

    /// The number of stored links.
    fn count(&self) -> (r: u64)
        requires
            self.inv(),
        ensures
            r == self.view().len(),
    {
        let query: [u64; 0] = [];
        proof {
            lemma_matching_all(self.constants_view(), self.view());
            assert(query@ =~= Seq::<u64>::empty());
        }
        self.count_by(&query)
    }

    /// `create_links` with `query` and `handler`.
    fn create_by_with<H: WriteHandler>(&mut self, query: &[u64], handler: &mut H) -> (r: Result<Flow, Error>)
        requires
            old(self).inv(),
        ensures
            final(self).inv(),
            final(self).constants_view() == old(self).constants_view(),
            r is Err <==> old(self).is_full(),
            match r {
                Ok(flow) => {
                    let link = Link { index: old(self).next_index(), source: 0, target: 0 };
                    &&& !has_index(old(self).view(), link.index)
                    &&& final(self).view() == insert_sorted(old(self).view(), link)
                    &&& (*final(handler)).calls() == (*old(handler)).calls().push((Link::null_link(), link, flow))
                },
                Err(e) => {
                    &&& final(self).view() == old(self).view()
                    &&& (*final(handler)).calls() == (*old(handler)).calls()
                    &&& (e is LimitReached || e is AllocFailed)
                },
            },
    {
        self.create_links(query, handler)
    }

    /// Creates a link and returns its index.
    fn create_by(&mut self, query: &[u64]) -> (r: Result<u64, Error>)
        requires
            old(self).inv(),
        ensures
            final(self).inv(),
            final(self).constants_view() == old(self).constants_view(),
            r is Err <==> old(self).is_full(),
            r is Err ==> *final(self) == *old(self),
            match r {
                Ok(index) => {
                    &&& index == old(self).next_index()
                    &&& !has_index(old(self).view(), index)
                    &&& final(self).view() == insert_sorted(old(self).view(), Link { index, source: 0, target: 0 })
                },
                Err(e) => final(self).view() == old(self).view() && (e is LimitReached || e is AllocFailed),
            },
    {
        let mut recorder = Recorder::new();
        match self.create_links(query, &mut recorder) {
            Ok(_) => Ok(recorder.last_index()),
            Err(e) => Err(e),
        }
    }

    /// `create_links` with no query.
    fn create_with<H: WriteHandler>(&mut self, handler: &mut H) -> (r: Result<Flow, Error>)
        requires
            old(self).inv(),
        ensures
            final(self).inv(),
            final(self).constants_view() == old(self).constants_view(),
            r is Err <==> old(self).is_full(),
            match r {
                Ok(flow) => {
                    let link = Link { index: old(self).next_index(), source: 0, target: 0 };
                    &&& !has_index(old(self).view(), link.index)
                    &&& final(self).view() == insert_sorted(old(self).view(), link)
                    &&& (*final(handler)).calls() == (*old(handler)).calls().push((Link::null_link(), link, flow))
                },
                Err(e) => {
                    &&& final(self).view() == old(self).view()
                    &&& (*final(handler)).calls() == (*old(handler)).calls()
                    &&& (e is LimitReached || e is AllocFailed)
                },
            },
    {
        let query: [u64; 0] = [];
        self.create_by_with(&query, handler)
    }

    /// Creates a link `(index, null, null)` and returns its index.
    fn create(&mut self) -> (r: Result<u64, Error>)
        requires
            old(self).inv(),
        ensures
            final(self).inv(),
            final(self).constants_view() == old(self).constants_view(),
            r is Err <==> old(self).is_full(),
            match r {
                Ok(index) => {
                    &&& index == old(self).next_index()
                    &&& !has_index(old(self).view(), index)
                    &&& final(self).view() == insert_sorted(old(self).view(), Link { index, source: 0, target: 0 })
                },
                Err(e) => final(self).view() == old(self).view() && (e is LimitReached || e is AllocFailed),
            },
    {
        let query: [u64; 0] = [];
        self.create_by(&query)
    }

    /// `each_links` with `query` and `handler`.
    fn each_by<H: ReadHandler>(&self, query: &[u64], handler: &mut H) -> (r: Flow)
        requires
            self.inv(),
        ensures
            extends((*old(handler)).calls(), (*final(handler)).calls()),
            each_outcome(
                matching(self.constants_view(), self.view(), query@),
                added((*old(handler)).calls(), (*final(handler)).calls()),
                r,
            ),
    {
        self.each_links(query, handler)
    }

    /// Calls `handler` for every stored link, in index order, until it answers `Break`.
    fn each<H: ReadHandler>(&self, handler: &mut H) -> (r: Flow)
        requires
            self.inv(),
        ensures
            extends((*old(handler)).calls(), (*final(handler)).calls()),
            each_outcome(self.view(), added((*old(handler)).calls(), (*final(handler)).calls()), r),
    {
        let query: [u64; 0] = [];
        proof {
            lemma_matching_all(self.constants_view(), self.view());
            assert(query@ =~= Seq::<u64>::empty());
        }
        self.each_by(&query, handler)
    }

    /// `update_links` with `query`, `change` and `handler`.
    fn update_by_with<H: WriteHandler>(&mut self, query: &[u64], change: &[u64], handler: &mut H) -> (r: Result<Flow, Error>)
        requires
            old(self).inv(),
        ensures
            final(self).inv(),
            final(self).constants_view() == old(self).constants_view(),
            ({
                let index = part(query@, 0);
                let after = updated_link(index, part(change@, 1), part(change@, 2));
                if has_index(old(self).view(), index) {
                    &&& r is Ok
                    &&& final(self).view() == replace_at(old(self).view(), index, after)
                    &&& (*final(handler)).calls() == (*old(handler)).calls().push((lookup(old(self).view(), index)->0, after, r->Ok_0))
                } else {
                    &&& r == Err::<Flow, Error>(Error::NotExists(index))
                    &&& final(self).view() == old(self).view()
                    &&& (*final(handler)).calls() == (*old(handler)).calls()
                }
            }),
    {
        proof {
            self.lemma_inv();
        }
        self.update_links(query, change, handler)
    }

    /// Updates the link named by `query` and returns its index.
    fn update_by(&mut self, query: &[u64], change: &[u64]) -> (r: Result<u64, Error>)
        requires
            old(self).inv(),
        ensures
            final(self).inv(),
            final(self).constants_view() == old(self).constants_view(),
            ({
                let index = part(query@, 0);
                if has_index(old(self).view(), index) {
                    &&& r == Ok::<u64, Error>(index)
                    &&& final(self).view() == replace_at(old(self).view(), index, updated_link(index, part(change@, 1), part(change@, 2)))
                } else {
                    &&& r == Err::<u64, Error>(Error::NotExists(index))
                    &&& final(self).view() == old(self).view()
                }
            }),
    {
        let mut recorder = Recorder::new();
        match self.update_by_with(query, change, &mut recorder) {
            Ok(_) => Ok(recorder.last_index()),
            Err(e) => Err(e),
        }
    }

    /// Sets the link `index` to `(source, target)`, reporting the change to `handler`.
    fn update_with<H: WriteHandler>(&mut self, index: u64, source: u64, target: u64, handler: &mut H) -> (r: Result<Flow, Error>)
        requires
            old(self).inv(),
        ensures
            final(self).inv(),
            final(self).constants_view() == old(self).constants_view(),
            if has_index(old(self).view(), index) {
                &&& r is Ok
                &&& final(self).view() == replace_at(old(self).view(), index, updated_link(index, source, target))
                &&& (*final(handler)).calls() == (*old(handler)).calls().push((lookup(old(self).view(), index)->0, updated_link(index, source, target), r->Ok_0))
            } else {
                &&& r == Err::<Flow, Error>(Error::NotExists(index))
                &&& final(self).view() == old(self).view()
                &&& (*final(handler)).calls() == (*old(handler)).calls()
            },
    {
        let query = [index];
        let change = [index, source, target];
        self.update_by_with(&query, &change, handler)
    }

    /// Sets the link `index` to `(source, target)` and returns `index`.
    fn update(&mut self, index: u64, source: u64, target: u64) -> (r: Result<u64, Error>)
        requires
            old(self).inv(),
        ensures
            final(self).inv(),
            final(self).constants_view() == old(self).constants_view(),
            if has_index(old(self).view(), index) {
                &&& r == Ok::<u64, Error>(index)
                &&& final(self).view() == replace_at(old(self).view(), index, updated_link(index, source, target))
            } else {
                &&& r == Err::<u64, Error>(Error::NotExists(index))
                &&& final(self).view() == old(self).view()
            },
    {
        let query = [index];
        let change = [index, source, target];
        self.update_by(&query, &change)
    }

    /// `delete_links` with `query` and `handler`.
    fn delete_by_with<H: WriteHandler>(&mut self, query: &[u64], handler: &mut H) -> (r: Result<Flow, Error>)
        requires
            old(self).inv(),
        ensures
            final(self).inv(),
            final(self).constants_view() == old(self).constants_view(),
            ({
                let index = part(query@, 0);
                if has_index(old(self).view(), index) {
                    &&& r is Ok
                    &&& final(self).view() == remove_index(old(self).view(), index)
                    &&& (*final(handler)).calls() == (*old(handler)).calls().push((lookup(old(self).view(), index)->0, Link::null_link(), r->Ok_0))
                } else {
                    &&& r == Err::<Flow, Error>(Error::NotExists(index))
                    &&& final(self).view() == old(self).view()
                    &&& (*final(handler)).calls() == (*old(handler)).calls()
                }
            }),
    {
        proof {
            self.lemma_inv();
        }
        self.delete_links(query, handler)
    }

    /// Deletes the link named by `query`; returns the index of the link after the
    /// change, which is the null address.
    fn delete_by(&mut self, query: &[u64]) -> (r: Result<u64, Error>)
        requires
            old(self).inv(),
        ensures
            final(self).inv(),
            final(self).constants_view() == old(self).constants_view(),
            ({
                let index = part(query@, 0);
                if has_index(old(self).view(), index) {
                    &&& r == Ok::<u64, Error>(0)
                    &&& final(self).view() == remove_index(old(self).view(), index)
                } else {
                    &&& r == Err::<u64, Error>(Error::NotExists(index))
                    &&& final(self).view() == old(self).view()
                }
            }),
    {
        let mut recorder = Recorder::new();
        match self.delete_by_with(query, &mut recorder) {
            Ok(_) => Ok(recorder.last_index()),
            Err(e) => Err(e),
        }
    }

    /// Deletes the link `index`, reporting the change to `handler`.
    fn delete_with<H: WriteHandler>(&mut self, index: u64, handler: &mut H) -> (r: Result<Flow, Error>)
        requires
            old(self).inv(),
        ensures
            final(self).inv(),
            final(self).constants_view() == old(self).constants_view(),
            if has_index(old(self).view(), index) {
                &&& r is Ok
                &&& final(self).view() == remove_index(old(self).view(), index)
                &&& (*final(handler)).calls() == (*old(handler)).calls().push((lookup(old(self).view(), index)->0, Link::null_link(), r->Ok_0))
            } else {
                &&& r == Err::<Flow, Error>(Error::NotExists(index))
                &&& final(self).view() == old(self).view()
                &&& (*final(handler)).calls() == (*old(handler)).calls()
            },
    {
        let query = [index];
        self.delete_by_with(&query, handler)
    }

    /// Deletes the link `index`; returns the null address.
    fn delete(&mut self, index: u64) -> (r: Result<u64, Error>)
        requires
            old(self).inv(),
        ensures
            final(self).inv(),
            final(self).constants_view() == old(self).constants_view(),
            if has_index(old(self).view(), index) {
                &&& r == Ok::<u64, Error>(0)
                &&& final(self).view() == remove_index(old(self).view(), index)
            } else {
                &&& r == Err::<u64, Error>(Error::NotExists(index))
                &&& final(self).view() == old(self).view()
            },
    {
        let query = [index];
        self.delete_by(&query)
    }

    /// The link `index`, or `NotExists(index)`.
    fn try_get_link(&self, index: u64) -> (r: Result<Link, Error>)
        requires
            self.inv(),
        ensures
            match lookup(self.view(), index) {
                Some(link) => r == Ok::<Link, Error>(link),
                None => r == Err::<Link, Error>(Error::NotExists(index)),
            },
    {
        match self.get_link(index) {
            Some(link) => Ok(link),
            None => Err(Error::NotExists(index)),
        }
    }

    /// `true` when some link matches `query`.
    fn found(&self, query: &[u64]) -> (r: bool)
        requires
            self.inv(),
        ensures
            r == (matching(self.constants_view(), self.view(), query@).len() != 0),
    {
        self.count_by(query) != 0
    }

    /// The first link, in index order, that matches `query`.
    fn find(&self, query: &[u64]) -> (r: Option<Link>)
        requires
            self.inv(),
        ensures
            ({
                let m = matching(self.constants_view(), self.view(), query@);
                r == (if m.len() == 0 { None } else { Some(m[0]) })
            }),
    {
        let mut finder = FirstFinder::new();
        let _ = self.each_by(query, &mut finder);
        let ghost ext = added(Seq::<(Link, Flow)>::empty(), finder.calls());
        proof {
            assert(finder.calls().subrange(0, 0) =~= Seq::<(Link, Flow)>::empty());
            assert(ext =~= finder.calls());
        }
        let r = finder.into_found();
        proof {
            if ext.len() > 1 {
                assert(ext[0].1 == Flow::Continue);
            }
        }
        r
    }

    /// The index of the first link `(source, target)`, if one is stored.
    fn search(&self, source: u64, target: u64) -> (r: Option<u64>)
        requires
            self.inv(),
        ensures
            ({
                let c = self.constants_view();
                let m = matching(c, self.view(), seq![c.any, source, target]);
                r == (if m.len() == 0 { None } else { Some(m[0].index) })
            }),
    {
        let query = [self.constants().any, source, target];
        match self.find(&query) {
            Some(link) => Some(link.index),
            None => None,
        }
    }

    /// The index of the first link `(source, target)`, or `default`.
    fn search_or(&self, source: u64, target: u64, default: u64) -> (r: u64)
        requires
            self.inv(),
        ensures
            ({
                let c = self.constants_view();
                let m = matching(c, self.view(), seq![c.any, source, target]);
                r == (if m.len() == 0 { default } else { m[0].index })
            }),
    {
        match self.search(source, target) {
            Some(index) => index,
            None => default,
        }
    }

    /// The link that matches `query`, when exactly one does.
    fn single(&self, query: &[u64]) -> (r: Option<Link>)
        requires
            self.inv(),
        ensures
            ({
                let m = matching(self.constants_view(), self.view(), query@);
                r == (if m.len() == 1 { Some(m[0]) } else { None })
            }),
    {
        let mut finder = SingleFinder::new();
        let ghost m = matching(self.constants_view(), self.view(), query@);
        let flow = self.each_by(query, &mut finder);
        let ghost ext = finder.calls();
        proof {
            assert(finder.calls().subrange(0, 0) =~= Seq::<(Link, Flow)>::empty());
            assert(added(Seq::<(Link, Flow)>::empty(), finder.calls()) =~= ext);
        }
        let r = finder.into_found();
        proof {
            if ext.len() > 0 {
                assert(ext.take(0) =~= Seq::<(Link, Flow)>::empty());
                assert(visited(ext.take(0)) =~= Seq::<Link>::empty());
                assert(ext[0].1 == Flow::Continue);
            }
            if ext.len() > 1 {
                assert(visited(ext.take(1)) =~= seq![m[0]]);
                assert(visited(ext.take(1)).drop_last() =~= Seq::<Link>::empty());
                assert(ext[1].1 == Flow::Break);
            }
            if ext.len() == 1 {
                assert(visited(ext) =~= seq![m[0]]);
                assert(visited(ext).drop_last() =~= Seq::<Link>::empty());
            }
            if ext.len() == 2 {
                assert(visited(ext).drop_last() =~= seq![m[0]]);
                assert(visited(ext).drop_last().drop_last() =~= Seq::<Link>::empty());
            }
        }
        r
    }

    /// Creates a point: a link whose source and target are its own index.
    fn create_point(&mut self) -> (r: Result<u64, Error>)
        requires
            old(self).inv(),
        ensures
            final(self).inv(),
            final(self).constants_view() == old(self).constants_view(),
            r is Err <==> old(self).is_full(),
            match r {
                Ok(index) => {
                    &&& index == old(self).next_index()
                    &&& !has_index(old(self).view(), index)
                    &&& final(self).view() == insert_sorted(old(self).view(), updated_link(index, index, index))
                },
                Err(e) => final(self).view() == old(self).view() && (e is LimitReached || e is AllocFailed),
            },
    {
        proof {
            self.lemma_inv();
        }
        let new = self.create()?;
        proof {
            lemma_replace_after_insert(old(self).view(), Link { index: new, source: 0, target: 0 }, updated_link(new, new, new));
        }
        self.update(new, new, new)
    }

    /// Creates the link `(source, target)`, reporting the creation and then the update
    /// to `handler`; once `handler` answers `Break` it hears nothing more.
    fn create_link_with<H: WriteHandler>(&mut self, source: u64, target: u64, handler: &mut H) -> (r: Result<Flow, Error>)
        requires
            old(self).inv(),
        ensures
            final(self).inv(),
            final(self).constants_view() == old(self).constants_view(),
            r is Err <==> old(self).is_full(),
            match r {
                Ok(flow) => {
                    let index = old(self).next_index();
                    let created = Link { index, source: 0, target: 0 };
                    let after = updated_link(index, source, target);
                    &&& !has_index(old(self).view(), index)
                    &&& final(self).view() == insert_sorted(old(self).view(), after)
                    &&& fused_calls((*old(handler)).calls(), seq![(Link::null_link(), created), (created, after)], (*final(handler)).calls())
                    &&& added((*old(handler)).calls(), (*final(handler)).calls()).len() == 2 ==> flow == (*final(handler)).calls().last().2
                    &&& added((*old(handler)).calls(), (*final(handler)).calls()).len() < 2 ==> flow == Flow::Break
                },
                Err(e) => {
                    &&& final(self).view() == old(self).view()
                    &&& (*final(handler)).calls() == (*old(handler)).calls()
                    &&& (e is LimitReached || e is AllocFailed)
                },
            },
    {
        let ghost start = handler.calls();
        proof {
            self.lemma_inv();
        }
        let mut recorder = Recorder::new();
        let query: [u64; 0] = [];
        match self.create_links(&query, &mut recorder) {
            Ok(_) => {},
            Err(e) => return Err(e),
        }
        let new = recorder.last_index();
        let created = Link { index: new, source: 0, target: 0 };
        let first = handler.handle(Link::nothing(), created);
        let query = [new];
        let change = [new, source, target];
        proof {
            self.lemma_inv();
            lemma_replace_after_insert(old(self).view(), created, updated_link(new, source, target));
            assert(query@ =~= seq![new]);
            assert(change@ =~= seq![new, source, target]);
        }
        let ghost middle = handler.calls();
        let r = if first.is_break() {
            let mut blown = Blown::new();
            let r = self.update_links(&query, &change, &mut blown);
            proof {
                blown.lemma_all_break();
                assert(blown.calls().last().2 == Flow::Break);
            }
            r
        } else {
            self.update_links(&query, &change, handler)
        };
        proof {
            let events = seq![(Link::null_link(), created), (created, updated_link(new, source, target))];
            let calls = handler.calls();
            assert(calls.subrange(0, start.len() as int) =~= start);
            if first == Flow::Break {
                assert(added(start, calls) =~= seq![(Link::null_link(), created, first)]);
            } else {
                assert(added(start, calls) =~= seq![(Link::null_link(), created, first), calls.last()]);
            }
        }
        r
    }

    /// Creates the link `(source, target)` and returns its index.
    fn create_link(&mut self, source: u64, target: u64) -> (r: Result<u64, Error>)
        requires
            old(self).inv(),
        ensures
            final(self).inv(),
            final(self).constants_view() == old(self).constants_view(),
            r is Err <==> old(self).is_full(),
            match r {
                Ok(index) => {
                    &&& index == old(self).next_index()
                    &&& !has_index(old(self).view(), index)
                    &&& final(self).view() == insert_sorted(old(self).view(), updated_link(index, source, target))
                },
                Err(e) => final(self).view() == old(self).view() && (e is LimitReached || e is AllocFailed),
            },
    {
        let mut recorder = Recorder::new();
        match self.create_link_with(source, target, &mut recorder) {
            Ok(_) => {
                proof {
                    let calls = recorder.calls();
                    assert(calls.subrange(0, 0) =~= Seq::<(Link, Link, Flow)>::empty());
                    assert(added(Seq::<(Link, Link, Flow)>::empty(), calls) =~= calls);
                }
                Ok(recorder.last_index())
            },
            Err(e) => Err(e),
        }
    }

    /// The index of the link `(source, target)`: the first stored one, or a new one.
    fn get_or_create(&mut self, source: u64, target: u64) -> (r: Result<u64, Error>)
        requires
            old(self).inv(),
        ensures
            final(self).inv(),
            final(self).constants_view() == old(self).constants_view(),
            r is Err <==> (matching(old(self).constants_view(), old(self).view(), seq![old(self).constants_view().any, source, target]).len() == 0
                && old(self).is_full()),
            ({
                let c = old(self).constants_view();
                let m = matching(c, old(self).view(), seq![c.any, source, target]);
                if m.len() > 0 {
                    r == Ok::<u64, Error>(m[0].index) && final(self).view() == old(self).view()
                } else {
                    match r {
                        Ok(index) => {
                            &&& index == old(self).next_index()
                            &&& !has_index(old(self).view(), index)
                            &&& final(self).view() == insert_sorted(old(self).view(), updated_link(index, source, target))
                        },
                        Err(e) => final(self).view() == old(self).view() && (e is LimitReached || e is AllocFailed),
                    }
                }
            }),
    {
        match self.search(source, target) {
            Some(index) => Ok(index),
            None => self.create_link(source, target),
        }
    }

    /// Whether `link` exists: external addresses always do, internal ones when stored.
    fn exist(&self, link: u64) -> (r: bool)
        requires
            self.inv(),
        ensures
            r == link_exists(self.constants_view(), self.view(), link),
    {
        proof {
            self.lemma_inv();
        }
        let constants = self.constants();
        if constants.is_external(link) {
            true
        } else {
            let query = [link];
            let internal = constants.is_internal(link);
            proof {
                assert(query@ =~= seq![link]);
                if internal {
                    lemma_count_index(self.constants_view(), self.view(), link);
                }
            }
            internal && self.count_by(&query) != 0
        }
    }

    /// How many times other links use `index` as their source or target, or
    /// `NotExists` when `index` is not stored.
    fn count_usages(&self, index: u64) -> (r: Result<u64, Error>)
        requires
            self.inv(),
        ensures
            if has_index(self.view(), index) {
                r == Ok::<u64, Error>(usage_count(self.constants_view(), self.view(), index) as u64)
                    && 0 <= usage_count(self.constants_view(), self.view(), index) <= 2 * self.view().len()
            } else {
                r == Err::<u64, Error>(Error::NotExists(index))
            },
    {
        proof {
            self.lemma_inv();
        }
        let any = self.constants().any;
        let link = self.try_get_link(index)?;
        let ghost c = self.constants_view();
        let ghost v = self.view();
        let ghost k = position(v, index);
        proof {
            assert(0 <= k < v.len() && v[k] == link);
            if link.source == index {
                lemma_matching_contains(c, v, seq![c.any, index, c.any], k);
            }
            if link.target == index {
                lemma_matching_contains(c, v, seq![c.any, c.any, index], k);
            }
            v.lemma_filter_len(crate::model::query_pred(c, seq![c.any, index, c.any]));
            v.lemma_filter_len(crate::model::query_pred(c, seq![c.any, c.any, index]));
        }
        let by_source = [any, index, any];
        let by_target = [any, any, index];
        proof {
            assert(by_source@ =~= seq![c.any, index, c.any]);
            assert(by_target@ =~= seq![c.any, c.any, index]);
        }
        let mut usage_source = self.count_by(&by_source);
        if index == link.source {
            usage_source = usage_source - 1;
        }
        let mut usage_target = self.count_by(&by_target);
        if index == link.target {
            usage_target = usage_target - 1;
        }
        Ok(usage_source + usage_target)
    }

    /// `true` when `link` is stored and other links use it.
    fn has_usages(&self, link: u64) -> (r: bool)
        requires
            self.inv(),
        ensures
            r == (has_index(self.view(), link) && usage_count(self.constants_view(), self.view(), link) != 0),
    {
        match self.count_usages(link) {
            Ok(count) => {
                proof {
                    self.lemma_inv();
                }
                count != 0
            },
            Err(_) => false,
        }
    }

    /// The indices of the links that use `index` as source, then of those that use
    /// it as target, leaving out `index` itself; `NotExists` when `index` is not stored.
    fn usages(&self, index: u64) -> (r: Result<Vec<u64>, Error>)
        requires
            self.inv(),
        ensures
            ({
                let c = self.constants_view();
                if has_index(self.view(), index) {
                    &&& r is Ok
                    &&& r->Ok_0@ == indices_except(matching(c, self.view(), seq![c.any, index, c.any]), index)
                        + indices_except(matching(c, self.view(), seq![c.any, c.any, index]), index)
                } else {
                    r == Err::<Vec<u64>, Error>(Error::NotExists(index))
                }
            }),
    {
        let any = self.constants().any;
        let _ = self.count_usages(index)?;
        let by_source = [any, index, any];
        let by_target = [any, any, index];
        proof {
            assert(by_source@ =~= seq![any, index, any]);
            assert(by_target@ =~= seq![any, any, index]);
        }
        let sources = collect_links(self, &by_source);
        let targets = collect_links(self, &by_target);
        let mut usages: Vec<u64> = Vec::new();
        push_indices_except(&mut usages, &sources, index);
        push_indices_except(&mut usages, &targets, index);
        proof {
            assert(usages@ =~= indices_except(sources@, index) + indices_except(targets@, index));
        }
        Ok(usages)
    }

    /// Deletes links from the highest count down: while the store holds `k` links it
    /// deletes the link `k`. Stops with `NotExists(k)` when there is no link `k`.
    fn delete_all(&mut self) -> (r: Result<(), Error>)
        requires
            old(self).inv(),
        ensures
            final(self).inv(),
            final(self).constants_view() == old(self).constants_view(),
            ({
                let n = old(self).view().len();
                let k = final(self).view().len();
                &&& forall|l: Link| #[trigger] final(self).view().contains(l) <==> (old(self).view().contains(l) && !(k < l.index <= n))
                &&& (r is Ok <==> k == 0)
                &&& r is Err ==> r == Err::<(), Error>(Error::NotExists(k as u64)) && !has_index(final(self).view(), k as u64)
            }),
    {
        proof {
            self.lemma_inv();
        }
        let ghost start = self.view();
        let mut count = self.count();
        while count != 0
            invariant
                self.inv(),
                self.constants_view() == old(self).constants_view(),
                start == old(self).view(),
                count == self.view().len(),
                count <= start.len(),
                forall|l: Link| #[trigger] self.view().contains(l) <==> (start.contains(l) && !(count < l.index <= start.len())),
            decreases self.view().len(),
        {
            proof {
                self.lemma_inv();
            }
            let ghost before = self.view();
            let ghost old_count = count;
            assert(forall|l: Link| #[trigger] before.contains(l) <==> (start.contains(l) && !(old_count < l.index <= start.len())));
            match self.delete(count) {
                Ok(_) => {},
                Err(e) => {
                    return Err(e);
                },
            }
            count = self.count();
            proof {
                assert(count == old_count - 1);
                assert forall|l: Link| #[trigger] self.view().contains(l) <==> (start.contains(l) && !(count < l.index <= start.len())) by {
                    lemma_remove_index_contains(before, old_count, l);
                    assert(before.contains(l) <==> (start.contains(l) && !(old_count < l.index <= start.len())));
                }
            }
        }
        Ok(())
    }

    /// Deletes every link that matches `query`, from the highest index down, reporting
    /// each deletion to `handler` until it answers `Break`.
    fn delete_query_with<H: WriteHandler>(&mut self, query: &[u64], handler: &mut H) -> (r: Result<(), Error>)
        requires
            old(self).inv(),
        ensures
            final(self).inv(),
            final(self).constants_view() == old(self).constants_view(),
            r is Ok,
            forall|l: Link| #[trigger] final(self).view().contains(l) <==> (old(self).view().contains(l)
                && !query_matches(old(self).constants_view(), l, query@)),
            sorted(final(self).view()),
            fused_calls(
                (*old(handler)).calls(),
                matching(old(self).constants_view(), old(self).view(), query@).reverse().map_values(|l: Link| (l, Link::null_link())),
                (*final(handler)).calls(),
            ),
    {
        proof {
            self.lemma_inv();
        }
        let ghost c = self.constants_view();
        let ghost start = self.view();
        let ghost calls0 = handler.calls();
        let found = collect_links(self, query);
        let ghost m = found@;
        let ghost events = m.reverse().map_values(|l: Link| (l, Link::null_link()));
        proof {
            lemma_filter_sorted(start, query_pred(c, query@));
            crate::model::lemma_extends_refl(calls0);
        }
        let mut done = false;
        let mut i: usize = found.len();
        while i > 0
            invariant
                self.inv(),
                self.constants_view() == c,
                c == old(self).constants_view(),
                start == old(self).view(),
                calls0 == (*old(handler)).calls(),
                found@ == m,
                m == matching(c, start, query@),
                sorted(m),
                sorted(start),
                events == m.reverse().map_values(|l: Link| (l, Link::null_link())),
                i <= m.len(),
                forall|l: Link| #[trigger] self.view().contains(l) <==> (start.contains(l) && !m.subrange(i as int, m.len() as int).contains(l)),
                fused_prefix(calls0, events.take(m.len() - i), handler.calls(), done),
            decreases i,
        {
            i = i - 1;
            let link = found[i];
            let ghost before = self.view();
            let ghost calls_before = handler.calls();
            proof {
                self.lemma_inv();
                lemma_matching_contains_iff(c, start, query@, link);
                assert(m.contains(link));
                assert(!m.subrange(i as int + 1, m.len() as int).contains(link)) by {
                    let sub = m.subrange(i as int + 1, m.len() as int);
                    if sub.contains(link) {
                        let j = choose|j: int| 0 <= j < sub.len() && sub[j] == link;
                        assert(m[i as int].index < m[i + 1 + j].index);
                    }
                }
                assert(before.contains(link));
                lemma_sorted_contains(before, link);
            }
            let index = link.index;
            let query1 = [index];
            proof {
                assert(query1@ =~= seq![index]);
            }
            let result = if done {
                let mut blown = Blown::new();
                self.delete_links(&query1, &mut blown)
            } else {
                self.delete_links(&query1, handler)
            };
            let flow = match result {
                Ok(flow) => flow,
                Err(e) => {
                    return Err(e);
                },
            };
            proof {
                assert forall|l: Link| #[trigger] self.view().contains(l) <==> (start.contains(l) && !m.subrange(i as int, m.len() as int).contains(l)) by {
                    lemma_remove_index_contains(before, index, l);
                    lemma_sorted_contains(start, l);
                    lemma_sorted_contains(start, link);
                    let sub0 = m.subrange(i as int, m.len() as int);
                    let sub1 = m.subrange(i as int + 1, m.len() as int);
                    if sub0.contains(l) {
                        let j = choose|j: int| 0 <= j < sub0.len() && sub0[j] == l;
                        if j > 0 {
                            assert(sub1[j - 1] == l);
                        }
                    }
                    if sub1.contains(l) {
                        let j = choose|j: int| 0 <= j < sub1.len() && sub1[j] == l;
                        assert(sub0[j + 1] == l);
                    }
                    if l == link {
                        assert(sub0[0] == l);
                    }
                }
                assert(events[m.len() - 1 - i] == (link, Link::null_link()));
                lemma_fused_step(calls0, events.take(m.len() - 1 - i), calls_before, done, (link, Link::null_link()), handler.calls(), flow);
                assert(events.take(m.len() - 1 - i).push((link, Link::null_link())) =~= events.take(m.len() - i));
            }
            if !done && flow.is_break() {
                done = true;
            }
        }
        proof {
            assert(m.subrange(0, m.len() as int) =~= m);
            assert(events.take(m.len() as int) =~= events);
            lemma_fused_prefix_calls(calls0, events, handler.calls(), done);
            assert forall|l: Link| #[trigger] self.view().contains(l) <==> (old(self).view().contains(l)
                && !query_matches(c, l, query@)) by {
                lemma_matching_contains_iff(c, start, query@, l);
            }
            self.lemma_inv();
        }
        Ok(())
    }

    /// Deletes every link that uses `index` as source or target, except `index` itself:
    /// the deletions run over `usages_to_delete` in order, and the first index met a
    /// second time, a link using `index` both ways, has already been deleted and stops
    /// the run with `NotExists`. Each deletion is reported to `handler` until it
    /// answers `Break`.
    fn delete_usages_with<H: WriteHandler>(&mut self, index: u64, handler: &mut H) -> (r: Result<(), Error>)
        requires
            old(self).inv(),
        ensures
            final(self).inv(),
            final(self).constants_view() == old(self).constants_view(),
            ({
                let d = usages_to_delete(old(self).constants_view(), old(self).view(), index);
                let first = first_repeat_from(d, 0);
                &&& (r is Ok <==> first == d.len())
                &&& r is Err ==> r == Err::<(), Error>(Error::NotExists(d[first]))
                &&& forall|l: Link| #[trigger] final(self).view().contains(l) <==> (old(self).view().contains(l) && !d.take(first).contains(l.index))
                &&& sorted(final(self).view())
                &&& fused_calls(
                    (*old(handler)).calls(),
                    d.take(first).map_values(|x: u64| (lookup(old(self).view(), x)->0, Link::null_link())),
                    (*final(handler)).calls(),
                )
            }),
    {
        proof {
            self.lemma_inv();
        }
        let ghost c = self.constants_view();
        let ghost start = self.view();
        let ghost calls0 = handler.calls();
        let any = self.constants().any;
        let by_source = [any, index, any];
        let by_target = [any, any, index];
        proof {
            assert(by_source@ =~= seq![any, index, any]);
            assert(by_target@ =~= seq![any, any, index]);
        }
        let sources = collect_links(self, &by_source);
        let targets = collect_links(self, &by_target);
        let mut to_delete: Vec<u64> = Vec::new();
        push_indices_except(&mut to_delete, &sources, index);
        push_indices_except(&mut to_delete, &targets, index);
        let ghost d = to_delete@.reverse();
        let ghost events = d.map_values(|x: u64| (lookup(start, x)->0, Link::null_link()));
        proof {
            assert(d == usages_to_delete(c, start, index));
            crate::model::lemma_extends_refl(calls0);
            assert(d.take(0) =~= Seq::<u64>::empty());
            assert(events.take(0) =~= Seq::<(Link, Link)>::empty());
            assert forall|j: int| 0 <= j < d.len() implies has_index(start, #[trigger] d[j]) by {
                let ie1 = indices_except(sources@, index);
                let ie2 = indices_except(targets@, index);
                let q = to_delete@.len() - 1 - j;
                assert(d[j] == to_delete@[q]);
                let (m, ie, qq) = if q < ie1.len() { (sources@, ie1, q) } else { (targets@, ie2, q - ie1.len()) };
                assert(to_delete@[q] == ie[qq]);
                lemma_indices_except_member(m, index, qq);
                let k = choose|k: int| 0 <= k < m.len() && (#[trigger] m[k]).index == ie[qq];
                if q < ie1.len() {
                    lemma_matching_member(c, start, seq![c.any, index, c.any], k);
                } else {
                    lemma_matching_member(c, start, seq![c.any, c.any, index], k);
                }
                let kk = choose|kk: int| 0 <= kk < start.len() && start[kk] == m[k];
            }
        }
        let n = to_delete.len();
        let mut done = false;
        let mut p: usize = 0;
        while p < n
            invariant
                self.inv(),
                self.constants_view() == c,
                c == old(self).constants_view(),
                start == old(self).view(),
                sorted(start),
                calls0 == (*old(handler)).calls(),
                n == to_delete@.len(),
                d == to_delete@.reverse(),
                d == usages_to_delete(c, start, index),
                events == d.map_values(|x: u64| (lookup(start, x)->0, Link::null_link())),
                forall|j: int| 0 <= j < d.len() ==> has_index(start, #[trigger] d[j]),
                p <= n,
                first_repeat_from(d, p as int) == first_repeat_from(d, 0),
                forall|l: Link| #[trigger] self.view().contains(l) <==> (start.contains(l) && !d.take(p as int).contains(l.index)),
                fused_prefix(calls0, events.take(p as int), handler.calls(), done),
            decreases n - p,
        {
            let x = to_delete[n - 1 - p];
            let ghost before = self.view();
            let ghost calls_before = handler.calls();
            proof {
                self.lemma_inv();
                assert(d[p as int] == x);
                let k = choose|k: int| 0 <= k < start.len() && start[k].index == x;
                lemma_sorted_position(start, k);
                if !d.take(p as int).contains(x) {
                    assert(before.contains(start[k]));
                    lemma_sorted_contains(before, start[k]);
                    assert(has_index(before, x));
                    assert(lookup(before, x) == lookup(start, x));
                } else {
                    if has_index(before, x) {
                        let kb = choose|kb: int| 0 <= kb < before.len() && before[kb].index == x;
                        assert(before.contains(before[kb]));
                    }
                    assert(first_repeat_from(d, p as int) == p);
                }
            }
            let query1 = [x];
            proof {
                assert(query1@ =~= seq![x]);
            }
            let result = if done {
                let mut blown = Blown::new();
                self.delete_links(&query1, &mut blown)
            } else {
                self.delete_links(&query1, handler)
            };
            let flow = match result {
                Ok(flow) => flow,
                Err(e) => {
                    proof {
                        assert(d.take(p as int).contains(x));
                        assert(first_repeat_from(d, p as int) == p);
                        lemma_fused_prefix_calls(calls0, events.take(p as int), handler.calls(), done);
                        assert(events.take(p as int) =~= d.take(p as int).map_values(|x: u64| (lookup(start, x)->0, Link::null_link())));
                    }
                    return Err(e);
                },
            };
            proof {
                assert(!d.take(p as int).contains(x));
                assert(d.take(p as int + 1) =~= d.take(p as int).push(x));
                assert forall|l: Link| #[trigger] self.view().contains(l) <==> (start.contains(l) && !d.take(p as int + 1).contains(l.index)) by {
                    lemma_remove_index_contains(before, x, l);
                    assert(before.contains(l) <==> (start.contains(l) && !d.take(p as int).contains(l.index)));
                    let t0 = d.take(p as int);
                    let t1 = d.take(p as int + 1);
                    assert(t1 =~= t0.push(x));
                    assert(t1.contains(l.index) <==> (t0.contains(l.index) || l.index == x)) by {
                        if t1.contains(l.index) {
                            let j = choose|j: int| 0 <= j < t1.len() && t1[j] == l.index;
                            if j < p {
                                assert(t0[j] == l.index);
                            }
                        }
                        if t0.contains(l.index) {
                            let j = choose|j: int| 0 <= j < t0.len() && t0[j] == l.index;
                            assert(t1[j] == l.index);
                        }
                        if l.index == x {
                            assert(t1[p as int] == x);
                        }
                    }
                }
                assert(events[p as int] == (lookup(start, x)->0, Link::null_link()));
                lemma_fused_step(calls0, events.take(p as int), calls_before, done, (lookup(start, x)->0, Link::null_link()), handler.calls(), flow);
                assert(events.take(p as int).push(events[p as int]) =~= events.take(p as int + 1));
            }
            if !done && flow.is_break() {
                done = true;
            }
            p = p + 1;
        }
        proof {
            assert(events.take(n as int) =~= d.take(n as int).map_values(|x: u64| (lookup(start, x)->0, Link::null_link())));
            lemma_fused_prefix_calls(calls0, events.take(n as int), handler.calls(), done);
            self.lemma_inv();
        }
        Ok(())
    }

    /// `delete_usages_with` with a handler that always answers `Continue`.
    fn delete_usages(&mut self, index: u64) -> (r: Result<(), Error>)
        requires
            old(self).inv(),
        ensures
            final(self).inv(),
            final(self).constants_view() == old(self).constants_view(),
            ({
                let d = usages_to_delete(old(self).constants_view(), old(self).view(), index);
                let first = first_repeat_from(d, 0);
                &&& (r is Ok <==> first == d.len())
                &&& r is Err ==> r == Err::<(), Error>(Error::NotExists(d[first]))
                &&& forall|l: Link| #[trigger] final(self).view().contains(l) <==> (old(self).view().contains(l) && !d.take(first).contains(l.index))
                &&& sorted(final(self).view())
            }),
    {
        let mut ignore = Ignore::new();
        self.delete_usages_with(index, &mut ignore)
    }

    /// Makes every link that references `old` reference `new` instead (see `rebased`),
    /// reporting each update to `handler` until it answers `Break`. Fails with `NotExists(old_link)` when `old` is not stored.
    #[verifier::rlimit(40)]
    fn rebase_with<H: WriteHandler>(&mut self, old_link: u64, new_link: u64, handler: &mut H) -> (r: Result<(), Error>)
        requires
            old(self).inv(),
        ensures
            final(self).inv(),
            final(self).constants_view() == old(self).constants_view(),
            extends((*old(handler)).calls(), (*final(handler)).calls()),
            if has_index(old(self).view(), old_link) {
                &&& r is Ok
                &&& final(self).view() == old(self).view().map_values(|l: Link| rebased(l, old_link, new_link))
                &&& old_link == new_link ==> (*final(handler)).calls() == (*old(handler)).calls()
                &&& old_link != new_link ==> fused_calls(
                    (*old(handler)).calls(),
                    rebase_events(rebase_usages(old(self).constants_view(), old(self).view(), old_link), old_link, new_link),
                    (*final(handler)).calls(),
                )
            } else {
                &&& r == Err::<(), Error>(Error::NotExists(old_link))
                &&& final(self).view() == old(self).view()
                &&& (*final(handler)).calls() == (*old(handler)).calls()
            },
    {
        proof {
            self.lemma_inv();
            crate::model::lemma_extends_refl(handler.calls());
        }
        let ghost c = self.constants_view();
        let ghost start = self.view();
        let ghost calls0 = handler.calls();
        let _ = self.try_get_link(old_link)?;
        if old_link == new_link {
            proof {
                assert(start.map_values(|l: Link| rebased(l, old_link, new_link)) =~= start);
            }
            return Ok(());
        }
        let any = self.constants().any;
        let by_source = [any, old_link, any];
        let by_target = [any, any, old_link];
        proof {
            assert(by_source@ =~= seq![any, old_link, any]);
            assert(by_target@ =~= seq![any, any, old_link]);
        }
        let sources = collect_links(self, &by_source);
        let targets = collect_links(self, &by_target);
        let mut usages: Vec<Link> = Vec::new();
        push_links_except(&mut usages, &sources, old_link);
        push_links_except(&mut usages, &targets, old_link);
        let ghost u = usages@;
        proof {
            let k = choose|k: int| 0 <= k < start.len() && start[k].index == old_link;
            assert(c.spec_is_internal(start[k].index));
            assert forall|l: Link| #[trigger] u.contains(l) <==> (start.contains(l) && l.index != old_link && (l.source == old_link || l.target == old_link)) by {
                lemma_links_except_contains(sources@, old_link, l);
                lemma_links_except_contains(targets@, old_link, l);
                lemma_matching_contains_iff(c, start, seq![any, old_link, any], l);
                lemma_matching_contains_iff(c, start, seq![any, any, old_link], l);
                let a = links_except(sources@, old_link);
                let b = links_except(targets@, old_link);
                assert(u == a + b);
                if u.contains(l) {
                    let j = choose|j: int| 0 <= j < u.len() && u[j] == l;
                    if j < a.len() {
                        assert(a[j] == l);
                    } else {
                        assert(b[j - a.len()] == l);
                    }
                }
                if a.contains(l) {
                    let j = choose|j: int| 0 <= j < a.len() && a[j] == l;
                    assert(u[j] == l);
                }
                if b.contains(l) {
                    let j = choose|j: int| 0 <= j < b.len() && b[j] == l;
                    assert(u[a.len() + j] == l);
                }
            }
        }
        proof {
            assert(sources@ == matching(c, start, seq![c.any, old_link, c.any]));
            assert(targets@ == matching(c, start, seq![c.any, c.any, old_link]));
            assert(u =~= rebase_usages(c, start, old_link));
            assert(u.take(0) =~= Seq::<Link>::empty());
            assert(added(calls0, calls0) =~= Seq::<(Link, Link, Flow)>::empty());
        }
        let mut done = false;
        let mut i: usize = 0;
        while i < usages.len()
            invariant
                self.inv(),
                self.constants_view() == c,
                c == old(self).constants_view(),
                start == old(self).view(),
                sorted(start),
                calls0 == (*old(handler)).calls(),
                usages@ == u,
                old_link != new_link,
                forall|l: Link| #[trigger] u.contains(l) <==> (start.contains(l) && l.index != old_link && (l.source == old_link || l.target == old_link)),
                i <= u.len(),
                self.view().len() == start.len(),
                forall|k: int| 0 <= k < start.len() ==> #[trigger] self.view()[k] == (if u.take(i as int).contains(start[k]) { rebased(start[k], old_link, new_link) } else { start[k] }),
                extends(calls0, handler.calls()),
                u == rebase_usages(c, start, old_link),
                fused_prefix(calls0, rebase_events(u.take(i as int), old_link, new_link), handler.calls(), done),
            decreases u.len() - i,
        {
            let usage = usages[i];
            let ghost before = self.view();
            proof {
                self.lemma_inv();
                assert(u.contains(usage));
                let p = choose|p: int| 0 <= p < start.len() && start[p] == usage;
                assert(before[p].index == usage.index);
                lemma_sorted_position(before, p);
            }
            let ghost p = choose|p: int| 0 <= p < start.len() && start[p] == usage;
            let ghost cur = before[p];
            let ghost mut ev = rebase_events(u.take(i as int), old_link, new_link);
            proof {
                lemma_sorted_position(before, p);
            }
            if usage.source == old_link {
                let query1 = [usage.index];
                let change = [usage.index, new_link, usage.target];
                proof {
                    assert(query1@ =~= seq![usage.index]);
                    assert(change@ =~= seq![usage.index, new_link, usage.target]);
                }
                let ghost calls_before = handler.calls();
                let result = if done {
                    let mut blown = Blown::new();
                    self.update_links(&query1, &change, &mut blown)
                } else {
                    self.update_links(&query1, &change, handler)
                };
                let flow = match result {
                    Ok(flow) => flow,
                    Err(e) => return Err(e),
                };
                proof {
                    if !done {
                        crate::model::lemma_extends_push(calls0, calls_before, handler.calls().last());
                        assert(handler.calls() =~= calls_before.push(handler.calls().last()));
                    }
                    let after_source = Link { index: usage.index, source: new_link, target: usage.target };
                    lemma_fused_step(calls0, ev, calls_before, done, (cur, after_source), handler.calls(), flow);
                    ev = ev.push((cur, after_source));
                }
                if !done && flow.is_break() {
                    done = true;
                }
            }
            let ghost middle = self.view();
            proof {
                self.lemma_inv();
                lemma_sorted_position(middle, p);
            }
            if usage.target == old_link {
                let query1 = [usage.index];
                let source_now = if usage.source == old_link { new_link } else { usage.source };
                let change = [usage.index, source_now, new_link];
                proof {
                    assert(query1@ =~= seq![usage.index]);
                    assert(change@ =~= seq![usage.index, source_now, new_link]);
                }
                let ghost calls_before = handler.calls();
                let result = if done {
                    let mut blown = Blown::new();
                    self.update_links(&query1, &change, &mut blown)
                } else {
                    self.update_links(&query1, &change, handler)
                };
                let flow = match result {
                    Ok(flow) => flow,
                    Err(e) => return Err(e),
                };
                proof {
                    if !done {
                        crate::model::lemma_extends_push(calls0, calls_before, handler.calls().last());
                        assert(handler.calls() =~= calls_before.push(handler.calls().last()));
                    }
                    let after_target = Link { index: usage.index, source: source_now, target: new_link };
                    lemma_fused_step(calls0, ev, calls_before, done, (middle[p], after_target), handler.calls(), flow);
                    ev = ev.push((middle[p], after_target));
                }
                if !done && flow.is_break() {
                    done = true;
                }
            }
            proof {
                assert(u.take(i as int + 1) =~= u.take(i as int).push(usage));
                assert(u.take(i as int + 1).drop_last() =~= u.take(i as int));
                assert(ev =~= rebase_events(u.take(i as int + 1), old_link, new_link));
                assert forall|k: int| 0 <= k < start.len() implies #[trigger] self.view()[k] == (if u.take(i as int + 1).contains(start[k]) { rebased(start[k], old_link, new_link) } else { start[k] }) by {
                    let t0 = u.take(i as int);
                    let t1 = u.take(i as int + 1);
                    if k == p {
                        assert(t1[i as int] == usage);
                    } else {
                        assert(start[k].index != start[p].index);
                        assert(before[k] == (if t0.contains(start[k]) { rebased(start[k], old_link, new_link) } else { start[k] }));
                        if t1.contains(start[k]) {
                            let j = choose|j: int| 0 <= j < t1.len() && t1[j] == start[k];
                            assert(j < i);
                            assert(t0[j] == start[k]);
                        }
                        if t0.contains(start[k]) {
                            let j = choose|j: int| 0 <= j < t0.len() && t0[j] == start[k];
                            assert(t1[j] == start[k]);
                        }
                    }
                }
            }
            i = i + 1;
        }
        proof {
            assert(u.take(u.len() as int) =~= u);
            assert(self.view() =~= start.map_values(|l: Link| rebased(l, old_link, new_link)));
            self.lemma_inv();
            lemma_fused_prefix_calls(calls0, rebase_events(u, old_link, new_link), handler.calls(), done);
        }
        Ok(())
    }

    /// `rebase_with` with a handler that always answers `Continue`; returns `new`.
    fn rebase(&mut self, old_link: u64, new_link: u64) -> (r: Result<u64, Error>)
        requires
            old(self).inv(),
        ensures
            final(self).inv(),
            final(self).constants_view() == old(self).constants_view(),
            if has_index(old(self).view(), old_link) {
                &&& r == Ok::<u64, Error>(new_link)
                &&& final(self).view() == old(self).view().map_values(|l: Link| rebased(l, old_link, new_link))
            } else {
                &&& r == Err::<u64, Error>(Error::NotExists(old_link))
                &&& final(self).view() == old(self).view()
            },
    {
        let mut ignore = Ignore::new();
        match self.rebase_with(old_link, new_link, &mut ignore) {
            Ok(()) => Ok(new_link),
            Err(e) => Err(e),
        }
    }

    /// Rebases `old` onto `new` and deletes `old`; returns `new` when they are the same,
    /// and otherwise what the deletion returns, the null address.
    fn rebase_and_delete(&mut self, old_link: u64, new_link: u64) -> (r: Result<u64, Error>)
        requires
            old(self).inv(),
        ensures
            final(self).inv(),
            final(self).constants_view() == old(self).constants_view(),
            if old_link == new_link {
                r == Ok::<u64, Error>(new_link) && final(self).view() == old(self).view()
            } else if has_index(old(self).view(), old_link) {
                &&& r == Ok::<u64, Error>(0)
                &&& final(self).view() == remove_index(old(self).view().map_values(|l: Link| rebased(l, old_link, new_link)), old_link)
            } else {
                &&& r == Err::<u64, Error>(Error::NotExists(old_link))
                &&& final(self).view() == old(self).view()
            },
    {
        if old_link == new_link {
            Ok(new_link)
        } else {
            let ghost start = self.view();
            self.rebase(old_link, new_link)?;
            proof {
                let k = choose|k: int| 0 <= k < start.len() && start[k].index == old_link;
                assert(self.view()[k].index == old_link);
            }
            self.delete(old_link)
        }
    }
}


/// Every link matches a query made only of `any`.
pub proof fn lemma_matching_any(c: LinksConstants, links: Seq<Link>)
    ensures
        matching(c, links, seq![c.any, c.any, c.any]) == links,
    decreases links.len(),
{
    reveal(Seq::filter);
    if links.len() > 0 {
        lemma_matching_any(c, links.drop_last());
        assert(links.drop_last().push(links.last()) =~= links);
    }
}

/// The links of a store gathered into vectors.
pub trait DoubletsExt: Doublets {
    /// Every stored link, in index order.
    fn iter(&self) -> (r: Vec<Link>)
        requires
            self.inv(),
        ensures
            r@ == self.view(),
    {
        let any = self.constants().any;
        let query = [any, any, any];
        proof {
            assert(query@ =~= seq![any, any, any]);
            lemma_matching_any(self.constants_view(), self.view());
        }
        self.each_iter(&query)
    }

    /// The links that match `query`, in index order.
    fn each_iter(&self, query: &[u64]) -> (r: Vec<Link>)
        requires
            self.inv(),
        ensures
            r@ == matching(self.constants_view(), self.view(), query@),
    {
        collect_links(self, query)
    }

    /// Every stored link, in index order, in a small vector.
    fn iter_small(&self) -> (r: SmallLinks)
        requires
            self.inv(),
        ensures
            small_links(r) == self.view(),
    {
        let any = self.constants().any;
        let query = [any, any, any];
        proof {
            assert(query@ =~= seq![any, any, any]);
            lemma_matching_any(self.constants_view(), self.view());
        }
        self.each_iter_small(&query)
    }

    /// The links that match `query`, in index order, in a small vector.
    fn each_iter_small(&self, query: &[u64]) -> (r: SmallLinks)
        requires
            self.inv(),
        ensures
            small_links(r) == matching(self.constants_view(), self.view(), query@),
    {
        proof {
            self.lemma_inv();
            self.view().lemma_filter_len(query_pred(self.constants_view(), query@));
        }
        let found = collect_links(self, query);
        small_from(&found)
    }
}

impl<L: Doublets> DoubletsExt for L {

}

} // verus!
