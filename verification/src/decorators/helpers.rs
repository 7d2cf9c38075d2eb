//! The operations on a store that the decorators are built from.
use crate::constants::LinksConstants;
use crate::data::{Doublet, Error, Link};
use crate::handler::{Blown, Recorder, WriteHandler};
use crate::model::{
    added, extends, has_index, insert_sorted, lemma_insert_sorted_contains, lemma_matching_contains_iff,
    lemma_remove_index_contains, lemma_sorted_contains, MAX_LINKS, lemma_sorted_position, lookup,
    matching, part as query_part, replace_at, sorted,
};
use crate::platform::link::Flow;
use crate::traits::{
    collect_links, fused_calls, fused_prefix, lemma_fused_prefix_calls, lemma_fused_step, lemma_links_except_contains, link_exists, links_except,
    push_links_except, rebased, updated_link, usage_count, Doublets, Links,
};
use vstd::prelude::*;

verus! {

/// Part `i` of `query`, or the null address when the query is shorter.
pub fn part(query: &[u64], i: u64) -> (r: u64)
    ensures
        r == query_part(query@, i),
{
    if i < query.len() as u64 {
        query[i as usize]
    } else {
        0
    }
}

/// Fails with `AlreadyExists(source, target)` when a link `(source, target)` is stored.
pub fn ensure_does_not_exist<L: Doublets>(links: &L, source: u64, target: u64) -> (r: Result<(), Error>)
    requires
        links.inv(),
    ensures
        ({
            let c = links.constants_view();
            if matching(c, links.view(), seq![c.any, source, target]).len() == 0 {
                r is Ok
            } else {
                r == Err::<(), Error>(Error::AlreadyExists(Doublet { source, target }))
            }
        }),
{
    match links.search(source, target) {
        Some(_) => Err(Error::AlreadyExists(Doublet::new(source, target))),
        None => Ok(()),
    }
}

/// `links` without those whose source is `source`.
pub open spec fn without_source(links: Seq<Link>, source: u64) -> Seq<Link>
    decreases links.len(),
{
    if links.len() == 0 {
        Seq::empty()
    } else if links.last().source != source {
        without_source(links.drop_last(), source).push(links.last())
    } else {
        without_source(links.drop_last(), source)
    }
}

/// The links that use `link` as source or target, other than `link` itself: those
/// that match `[any, link, any]`, then those that match `[any, any, link]` and were
/// not listed already.
pub open spec fn usage_links(c: LinksConstants, links: Seq<Link>, link: u64) -> Seq<Link> {
    links_except(
        matching(c, links, seq![c.any, link, c.any]) + without_source(matching(c, links, seq![c.any, c.any, link]), link),
        link,
    )
}

/// A link is in `without_source(links, source)` when it is in `links` with another source.
pub proof fn lemma_without_source_contains(links: Seq<Link>, source: u64, link: Link)
    ensures
        without_source(links, source).contains(link) <==> (links.contains(link) && link.source != source),
    decreases links.len(),
{
    if links.len() > 0 {
        lemma_without_source_contains(links.drop_last(), source, link);
        let sub = without_source(links.drop_last(), source);
        if links.contains(link) && link.source != source {
            let k = choose|k: int| 0 <= k < links.len() && links[k] == link;
            if k < links.len() - 1 {
                assert(links.drop_last()[k] == link);
            }
        }
        if links.drop_last().contains(link) {
            let k = choose|k: int| 0 <= k < links.drop_last().len() && links.drop_last()[k] == link;
            assert(links[k] == link);
        }
        if links.last().source != source {
            let w = without_source(links, source);
            if w.contains(link) {
                let k = choose|k: int| 0 <= k < w.len() && w[k] == link;
                if k < sub.len() {
                    assert(sub[k] == link);
                } else {
                    assert(links[links.len() - 1] == link);
                }
            }
            if sub.contains(link) {
                let k = choose|k: int| 0 <= k < sub.len() && sub[k] == link;
                assert(w[k] == link);
            }
            if link == links.last() {
                assert(w[sub.len() as int] == link);
            }
        }
    }
}

/// A link uses `link` exactly when it is stored, is not `link`, and has `link` as
/// source or target (every link does, when `link` is `any`).
pub proof fn lemma_usage_links_contains(c: LinksConstants, links: Seq<Link>, link: u64, l: Link)
    ensures
        usage_links(c, links, link).contains(l) <==> (links.contains(l) && l.index != link && (link == c.any
            || l.source == link || l.target == link)),
{
    let a = matching(c, links, seq![c.any, link, c.any]);
    let b = without_source(matching(c, links, seq![c.any, c.any, link]), link);
    lemma_links_except_contains(a + b, link, l);
    lemma_matching_contains_iff(c, links, seq![c.any, link, c.any], l);
    lemma_matching_contains_iff(c, links, seq![c.any, c.any, link], l);
    lemma_without_source_contains(matching(c, links, seq![c.any, c.any, link]), link, l);
    if (a + b).contains(l) {
        let j = choose|j: int| 0 <= j < (a + b).len() && (a + b)[j] == l;
        if j < a.len() {
            assert(a[j] == l);
        } else {
            assert(b[j - a.len()] == l);
        }
    }
    if a.contains(l) {
        let j = choose|j: int| 0 <= j < a.len() && a[j] == l;
        assert((a + b)[j] == l);
    }
    if b.contains(l) {
        let j = choose|j: int| 0 <= j < b.len() && b[j] == l;
        assert((a + b)[a.len() + j] == l);
    }
}

/// Appends to `out` the links of `links` whose source is not `source`.
fn push_without_source(out: &mut Vec<Link>, links: &Vec<Link>, source: u64)
    ensures
        final(out)@ == old(out)@ + without_source(links@, source),
{
    let mut i: usize = 0;
    while i < links.len()
        invariant
            i <= links@.len(),
            out@ == old(out)@ + without_source(links@.take(i as int), source),
        decreases links@.len() - i,
    {
        proof {
            assert(links@.take(i as int + 1).drop_last() =~= links@.take(i as int));
        }
        if links[i].source != source {
            out.push(links[i]);
        }
        i = i + 1;
    }
    proof {
        assert(links@.take(i as int) =~= links@);
    }
}

/// Every link that uses `link` as source or target, other than `link` itself.
pub fn usages_of<L: Doublets>(links: &L, link: u64) -> (r: Vec<Link>)
    requires
        links.inv(),
    ensures
        r@ == usage_links(links.constants_view(), links.view(), link),
{
    let any = links.constants().any;
    let by_source = [any, link, any];
    let by_target = [any, any, link];
    proof {
        assert(by_source@ =~= seq![any, link, any]);
        assert(by_target@ =~= seq![any, any, link]);
    }
    let sources = collect_links(links, &by_source);
    let targets = collect_links(links, &by_target);
    let mut both = sources;
    push_without_source(&mut both, &targets, link);
    let mut usages: Vec<Link> = Vec::new();
    push_links_except(&mut usages, &both, link);
    proof {
        assert(usages@ =~= links_except(both@, link));
    }
    usages
}

/// Fails with `HasUsages`, listing the usages, when other links use `link`.
pub fn ensure_no_usages<L: Doublets>(links: &L, link: u64) -> (r: Result<(), Error>)
    requires
        links.inv(),
    ensures
        ({
            let c = links.constants_view();
            if has_index(links.view(), link) && usage_count(c, links.view(), link) != 0 {
                &&& r is Err
                &&& r->Err_0 is HasUsages
                &&& r->Err_0->HasUsages_0@ == usage_links(c, links.view(), link)
            } else {
                r is Ok
            }
        }),
{
    if links.has_usages(link) {
        Err(Error::HasUsages(usages_of(links, link)))
    } else {
        Ok(())
    }
}

/// The first position of `query`, from `j` on, holding an internal address that does
/// not exist; the length of `query` when there is none.
pub open spec fn first_missing_from(c: LinksConstants, links: Seq<Link>, query: Seq<u64>, j: int) -> int
    decreases query.len() - j,
{
    if j < 0 || j >= query.len() {
        query.len() as int
    } else if c.spec_is_internal(query[j]) && !link_exists(c, links, query[j]) {
        j
    } else {
        first_missing_from(c, links, query, j + 1)
    }
}

/// Fails with `NotExists` for the first internal address in `query` that does not
/// exist.
pub fn ensure_inner_reference_exists<L: Doublets>(links: &L, query: &[u64]) -> (r: Result<(), Error>)
    requires
        links.inv(),
    ensures
        ({
            let j = first_missing_from(links.constants_view(), links.view(), query@, 0);
            if j == query@.len() {
                r is Ok
            } else {
                r == Err::<(), Error>(Error::NotExists(query@[j]))
            }
        }),
{
    let mut i: usize = 0;
    while i < query.len()
        invariant
            links.inv(),
            i <= query@.len(),
            first_missing_from(links.constants_view(), links.view(), query@, i as int) == first_missing_from(links.constants_view(), links.view(), query@, 0),
        decreases query@.len() - i,
    {
        let reference = query[i];
        if links.constants().is_internal(reference) && !links.exist(reference) {
            return Err(Error::NotExists(reference));
        }
        i = i + 1;
    }
    Ok(())
}

/// Fails with `NotExists(link)` unless `link` exists.
pub fn ensure_link_exists<L: Doublets>(links: &L, link: u64) -> (r: Result<(), Error>)
    requires
        links.inv(),
    ensures
        if link_exists(links.constants_view(), links.view(), link) {
            r is Ok
        } else {
            r == Err::<(), Error>(Error::NotExists(link))
        },
{
    if links.exist(link) {
        Ok(())
    } else {
        Err(Error::NotExists(link))
    }
}

/// The substitution with `constant` resolved: its index, or the restriction's when it
/// has none (the address 0); and its source and target, each replaced by that index when it is
/// `constant`.
pub open spec fn resolved(constant: u64, restriction: Seq<u64>, substitution: Seq<u64>, c: LinksConstants) -> Seq<u64> {
    let given = query_part(substitution, c.index_part);
    let index = if given == 0 { query_part(restriction, c.index_part) } else { given };
    let source = query_part(substitution, c.source_part);
    let target = query_part(substitution, c.target_part);
    seq![
        index,
        if source == constant { index } else { source },
        if target == constant { index } else { target },
    ]
}

/// Replaces `constant` in the source and target of `substitution` by the index being
/// written: the substitution's own, or the restriction's when it has none.
pub fn resolve_constant_as_self_reference(
    constant: u64,
    restriction: &[u64],
    substitution: &[u64],
    constants: &LinksConstants,
) -> (r: [u64; 3])
    ensures
        r@ == resolved(constant, restriction@, substitution@, *constants),
{
    let mut index = part(substitution, constants.index_part);
    if index == 0 {
        index = part(restriction, constants.index_part);
    }
    let mut source = part(substitution, constants.source_part);
    let mut target = part(substitution, constants.target_part);
    if source == constant {
        source = index;
    }
    if target == constant {
        target = index;
    }
    let r = [index, source, target];
    proof {
        assert(r@ =~= resolved(constant, restriction@, substitution@, *constants));
    }
    r
}

/// Whether the link `index` has null source and target; `NotExists` when it is not stored.
pub fn are_values_reset<L: Doublets>(links: &L, index: u64) -> (r: Result<bool, Error>)
    requires
        links.inv(),
    ensures
        match lookup(links.view(), index) {
            Some(link) => r == Ok::<bool, Error>(link.source == 0 && link.target == 0),
            None => r == Err::<bool, Error>(Error::NotExists(index)),
        },
{
    let link = links.try_get_link(index)?;
    Ok(link.source == 0 && link.target == 0)
}

/// Sets the link `index` to `(null, null)` unless it already is; `NotExists` when it is
/// not stored.
pub fn enforce_reset_values<L: Doublets, H: WriteHandler>(links: &mut L, index: u64, handler: &mut H) -> (r: Result<Flow, Error>)
    requires
        old(links).inv(),
    ensures
        final(links).inv(),
        final(links).constants_view() == old(links).constants_view(),
        match lookup(old(links).view(), index) {
            None => {
                &&& r == Err::<Flow, Error>(Error::NotExists(index))
                &&& final(links).view() == old(links).view()
                &&& (*final(handler)).calls() == (*old(handler)).calls()
            },
            Some(link) => if link.source == 0 && link.target == 0 {
                &&& r == Ok::<Flow, Error>(Flow::Continue)
                &&& final(links).view() == old(links).view()
                &&& (*final(handler)).calls() == (*old(handler)).calls()
            } else {
                &&& r is Ok
                &&& final(links).view() == replace_at(old(links).view(), index, updated_link(index, 0, 0))
                &&& (*final(handler)).calls() == (*old(handler)).calls().push((link, updated_link(index, 0, 0), r->Ok_0))
            },
        },
{
    if are_values_reset(links, index)? {
        return Ok(Flow::Continue);
    }
    proof {
        links.lemma_inv();
    }
    let query = [index];
    let change = [index, 0, 0];
    proof {
        assert(query@ =~= seq![index]);
        assert(change@ =~= seq![index, 0u64, 0u64]);
    }
    links.update_links(&query, &change, handler)
}

/// Creates a link and points it at itself, reporting the creation and then the update
/// to `handler`; once `handler` answers `Break` it hears nothing more.
pub fn create_point_with<L: Doublets, H: WriteHandler>(links: &mut L, handler: &mut H) -> (r: Result<Flow, Error>)
    requires
        old(links).inv(),
    ensures
        final(links).inv(),
        final(links).constants_view() == old(links).constants_view(),
        r is Err <==> old(links).is_full(),
        match r {
            Ok(flow) => {
                let index = old(links).next_index();
                let created = Link { index, source: 0, target: 0 };
                let after = updated_link(index, index, index);
                &&& !has_index(old(links).view(), index)
                &&& final(links).view() == insert_sorted(old(links).view(), after)
                &&& fused_calls((*old(handler)).calls(), seq![(Link::null_link(), created), (created, after)], (*final(handler)).calls())
                &&& crate::model::added((*old(handler)).calls(), (*final(handler)).calls()).len() == 2 ==> flow == (*final(handler)).calls().last().2
                &&& crate::model::added((*old(handler)).calls(), (*final(handler)).calls()).len() < 2 ==> flow == Flow::Break
            },
            Err(e) => {
                &&& final(links).view() == old(links).view()
                &&& (*final(handler)).calls() == (*old(handler)).calls()
                &&& (e is LimitReached || e is AllocFailed)
            },
        },
{
    let ghost start = handler.calls();
    proof {
        links.lemma_inv();
    }
    let mut recorder = Recorder::new();
    let query: [u64; 0] = [];
    match links.create_links(&query, &mut recorder) {
        Ok(_) => {},
        Err(e) => return Err(e),
    }
    let point = recorder.last_index();
    let created = Link { index: point, source: 0, target: 0 };
    let first = handler.handle(Link::nothing(), created);
    let query = [point];
    let change = [point, point, point];
    proof {
        crate::model::lemma_replace_after_insert(old(links).view(), created, updated_link(point, point, point));
        assert(query@ =~= seq![point]);
        assert(change@ =~= seq![point, point, point]);
    }
    let r = if first.is_break() {
        let mut blown = Blown::new();
        let r = links.update_links(&query, &change, &mut blown);
        proof {
            blown.lemma_all_break();
            assert(blown.calls().last().2 == Flow::Break);
        }
        r
    } else {
        links.update_links(&query, &change, handler)
    };
    proof {
        let calls = handler.calls();
        assert(calls.subrange(0, start.len() as int) =~= start);
        if first == Flow::Break {
            assert(crate::model::added(start, calls) =~= seq![(Link::null_link(), created, first)]);
        } else {
            assert(crate::model::added(start, calls) =~= seq![(Link::null_link(), created, first), calls.last()]);
        }
    }
    r
}

/// What `merge_usages` leaves of a link: a link other than `old` gets `new` in place
/// of `old` in its source and in its target.
pub open spec fn merged(link: Link, old_link: u64, new_link: u64) -> Link {
    rebased(link, old_link, new_link)
}

/// The changes `merge_usages` makes going over the usages `usages` in order: each usage
/// becomes `merged`, reading as merged already when it came before.
pub open spec fn merge_events(usages: Seq<Link>, old_link: u64, new_link: u64) -> Seq<(Link, Link)> {
    Seq::new(
        usages.len(),
        |i: int|
            (
                if usages.take(i).contains(usages[i]) {
                    merged(usages[i], old_link, new_link)
                } else {
                    usages[i]
                },
                merged(usages[i], old_link, new_link),
            ),
    )
}

/// The handler's record grew from `h0` to `h1` and the last answer it gave was `Break`.
pub open spec fn handler_broke(h0: Seq<(Link, Link, Flow)>, h1: Seq<(Link, Link, Flow)>) -> bool {
    added(h0, h1).len() > 0 && added(h0, h1).last().2 == Flow::Break
}

/// `merge_usages`, answering `Break` when the handler answered `Break`.
pub(crate) fn merge_usages_fused<L: Doublets, H: WriteHandler>(links: &mut L, old_link: u64, new_link: u64, handler: &mut H) -> (r: Result<Flow, Error>)
    requires
        old(links).inv(),
    ensures
        final(links).inv(),
        final(links).constants_view() == old(links).constants_view(),
        r is Ok,
        r->Ok_0 == Flow::Break <==> handler_broke((*old(handler)).calls(), (*final(handler)).calls()),
        old_link == new_link ==> final(links).view() == old(links).view(),
        final(links).view() == old(links).view().map_values(|l: Link| merged(l, old_link, new_link)),
        extends((*old(handler)).calls(), (*final(handler)).calls()),
        old_link == new_link ==> (*final(handler)).calls() == (*old(handler)).calls(),
        old_link != new_link ==> fused_calls(
            (*old(handler)).calls(),
            merge_events(usage_links(old(links).constants_view(), old(links).view(), old_link), old_link, new_link),
            (*final(handler)).calls(),
        ),
{
    proof {
        links.lemma_inv();
        crate::model::lemma_extends_refl(handler.calls());
    }
    let ghost start = links.view();
    let ghost c = links.constants_view();
    let ghost calls0 = handler.calls();
    if old_link == new_link {
        proof {
            assert(start.map_values(|l: Link| merged(l, old_link, new_link)) =~= start);
        }
        return Ok(Flow::Continue);
    }
    let usages = usages_of(links, old_link);
    let ghost u = usages@;
    proof {
        assert forall|l: Link| #[trigger] u.contains(l) <==> (start.contains(l) && l.index != old_link && (old_link == c.any || l.source == old_link || l.target == old_link)) by {
            lemma_usage_links_contains(c, start, old_link, l);
        }
    }
    proof {
        assert(merge_events(u, old_link, new_link).take(0) =~= Seq::<(Link, Link)>::empty());
        assert(added(calls0, calls0) =~= Seq::<(Link, Link, Flow)>::empty());
    }
    let mut done = false;
    let mut i: usize = 0;
    while i < usages.len()
        invariant
            links.inv(),
            links.constants_view() == c,
            c == old(links).constants_view(),
            start == old(links).view(),
            sorted(start),
            calls0 == (*old(handler)).calls(),
            usages@ == u,
            forall|l: Link| #[trigger] u.contains(l) ==> start.contains(l),
            forall|l: Link| #[trigger] u.contains(l) <==> (start.contains(l) && l.index != old_link && (old_link == c.any || l.source == old_link || l.target == old_link)),
            i <= u.len(),
            links.view().len() == start.len(),
            forall|k: int| 0 <= k < start.len() ==> #[trigger] links.view()[k] == (if u.take(i as int).contains(start[k]) { merged(start[k], old_link, new_link) } else { start[k] }),
            extends(calls0, handler.calls()),
            fused_prefix(calls0, merge_events(u, old_link, new_link).take(i as int), handler.calls(), done),
        decreases u.len() - i,
    {
        let usage = usages[i];
        let ghost before = links.view();
        proof {
            assert(u.contains(usage)) by {
                assert(u[i as int] == usage);
            }
        }
        let ghost p = choose|p: int| 0 <= p < start.len() && start[p] == usage;
        proof {
            links.lemma_inv();
            assert(before[p].index == usage.index);
            lemma_sorted_position(before, p);
        }
        let source = if usage.source == old_link { new_link } else { usage.source };
        let target = if usage.target == old_link { new_link } else { usage.target };
        let query = [usage.index];
        let change = [usage.index, source, target];
        proof {
            assert(query@ =~= seq![usage.index]);
            assert(change@ =~= seq![usage.index, source, target]);
        }
        let ghost calls_before = handler.calls();
        let result = if done {
            let mut blown = Blown::new();
            links.update_links(&query, &change, &mut blown)
        } else {
            links.update_links(&query, &change, handler)
        };
        let flow = match result {
            Ok(flow) => flow,
            Err(e) => return Err(e),
        };
        proof {
            if !done {
                crate::model::lemma_extends_push(calls0, calls_before, handler.calls().last());
                assert(handler.calls() =~= calls_before.push(handler.calls().last()));
            }
            let events = merge_events(u, old_link, new_link);
            assert(usage.index != old_link);
            assert(events[i as int] == (before[p], updated_link(usage.index, source, target)));
            lemma_fused_step(calls0, events.take(i as int), calls_before, done, events[i as int], handler.calls(), flow);
            assert(events.take(i as int).push(events[i as int]) =~= events.take(i as int + 1));
            assert(u.take(i as int + 1) =~= u.take(i as int).push(usage));
            assert forall|k: int| 0 <= k < start.len() implies #[trigger] links.view()[k] == (if u.take(i as int + 1).contains(start[k]) { merged(start[k], old_link, new_link) } else { start[k] }) by {
                let t0 = u.take(i as int);
                let t1 = u.take(i as int + 1);
                if k == p {
                    assert(t1[i as int] == usage);
                } else {
                    assert(start[k].index != start[p].index);
                    assert(before[k] == (if t0.contains(start[k]) { merged(start[k], old_link, new_link) } else { start[k] }));
                    if t1.contains(start[k]) {
                        let j = choose|j: int| 0 <= j < t1.len() && t1[j] == start[k];
                        assert(t0[j] == start[k]);
                    }
                    if t0.contains(start[k]) {
                        let j = choose|j: int| 0 <= j < t0.len() && t0[j] == start[k];
                        assert(t1[j] == start[k]);
                    }
                }
            }
        }
        if !done && flow.is_break() {
            done = true;
        }
        i = i + 1;
    }
    proof {
        assert(u.take(u.len() as int) =~= u);
        assert(links.view() =~= start.map_values(|l: Link| merged(l, old_link, new_link)));
        assert(merge_events(u, old_link, new_link).take(u.len() as int) =~= merge_events(u, old_link, new_link));
        lemma_fused_prefix_calls(calls0, merge_events(u, old_link, new_link), handler.calls(), done);
    }
    if done {
        Ok(Flow::Break)
    } else {
        Ok(Flow::Continue)
    }
}

/// Re-points every link that uses `old` at `new`, reporting each update to `handler`
/// until it answers `Break`.
pub fn merge_usages<L: Doublets, H: WriteHandler>(links: &mut L, old_link: u64, new_link: u64, handler: &mut H) -> (r: Result<Flow, Error>)
    requires
        old(links).inv(),
    ensures
        final(links).inv(),
        final(links).constants_view() == old(links).constants_view(),
        r == Ok::<Flow, Error>(Flow::Continue),
        old_link == new_link ==> final(links).view() == old(links).view(),
        final(links).view() == old(links).view().map_values(|l: Link| merged(l, old_link, new_link)),
        extends((*old(handler)).calls(), (*final(handler)).calls()),
        old_link == new_link ==> (*final(handler)).calls() == (*old(handler)).calls(),
        old_link != new_link ==> fused_calls(
            (*old(handler)).calls(),
            merge_events(usage_links(old(links).constants_view(), old(links).view(), old_link), old_link, new_link),
            (*final(handler)).calls(),
        ),
{
    let _ = merge_usages_fused(links, old_link, new_link, handler)?;
    Ok(Flow::Continue)
}

/// `true` when `values` holds `value`.
pub(crate) fn holds(values: &Vec<u64>, value: u64) -> (r: bool)
    ensures
        r == values@.contains(value),
{
    let mut i: usize = 0;
    while i < values.len()
        invariant
            i <= values@.len(),
            forall|j: int| 0 <= j < i ==> values@[j] != value,
        decreases values@.len() - i,
    {
        if values[i] == value {
            return true;
        }
        i = i + 1;
    }
    false
}

/// The addresses that `ensure_created` sets out to create: those of `addresses` that
/// are not null and do not exist.
pub open spec fn missing(c: LinksConstants, links: Seq<Link>, address: u64, addresses: Seq<u64>) -> bool {
    addresses.contains(address) && address != 0 && !link_exists(c, links, address)
}

/// `m` is the largest of the addresses that `ensure_created` sets out to create.
pub open spec fn largest_missing(c: LinksConstants, links: Seq<Link>, addresses: Seq<u64>, m: u64) -> bool {
    &&& missing(c, links, m, addresses)
    &&& forall|a: u64| #[trigger] missing(c, links, a, addresses) ==> a <= m
}

/// Where a run of creations for the largest missing address `m` stops: at `m`, or at
/// `end`, the end of the internal range, when that comes first.
pub open spec fn run_bound(m: u64, end: u64) -> u64 {
    if m < end {
        m
    } else {
        end
    }
}

/// The addresses one run of creations handed out, in order, for a store holding
/// `links`: the first is `first`, each is new and different from the others, and the
/// run goes on while they stay below `bound` and ends with the first at or beyond it.
pub open spec fn creation_run(links: Seq<Link>, created: Seq<u64>, first: u64, bound: u64) -> bool {
    &&& created.len() > 0
    &&& created[0] == first
    &&& forall|k: int| 0 <= k < created.len() - 1 ==> #[trigger] created[k] < bound
    &&& created[created.len() - 1] >= bound
    &&& forall|k1: int, k2: int| 0 <= k1 < k2 < created.len() ==> created[k1] != created[k2]
    &&& forall|k: int| 0 <= k < created.len() ==> !has_index(links, #[trigger] created[k])
}

/// Creates links until the store hands out an address at or beyond the largest
/// missing address of `addresses` (or the end of the internal range), then deletes
/// the links it created whose address was not asked for.
pub fn ensure_created<L: Doublets>(links: &mut L, addresses: &[u64]) -> (r: Result<(), Error>)
    requires
        old(links).inv(),
    ensures
        final(links).inv(),
        final(links).constants_view() == old(links).constants_view(),
        forall|l: Link| #[trigger] old(links).view().contains(l) ==> final(links).view().contains(l),
        forall|l: Link| #[trigger] final(links).view().contains(l) && !old(links).view().contains(l) ==> {
            &&& l.source == 0 && l.target == 0
            &&& !has_index(old(links).view(), l.index)
            &&& (r is Ok ==> missing(old(links).constants_view(), old(links).view(), l.index, addresses@))
        },
        (forall|a: u64| !missing(old(links).constants_view(), old(links).view(), a, addresses@)) ==> r is Ok && final(links).view() == old(links).view(),
        r is Err ==> (r->Err_0 is LimitReached || r->Err_0 is AllocFailed),
        r is Err ==> final(links).is_full(),
        (r is Ok && exists|a: u64| missing(old(links).constants_view(), old(links).view(), a, addresses@)) ==> exists|m: u64, created: Seq<u64>|
            #[trigger] largest_missing(old(links).constants_view(), old(links).view(), addresses@, m)
            && #[trigger] creation_run(
                old(links).view(),
                created,
                old(links).next_index(),
                run_bound(m, old(links).constants_view().internal_range.end),
            ) && forall|l: Link| #[trigger] final(links).view().contains(l) <==> (old(links).view().contains(l) || (l.source == 0
                && l.target == 0 && created.contains(l.index) && missing(old(links).constants_view(), old(links).view(), l.index, addresses@))),
        (r is Ok && L::fills_lowest_free()) ==> forall|a: u64|
            #[trigger] missing(old(links).constants_view(), old(links).view(), a, addresses@)
                && old(links).constants_view().internal_range.start <= a <= old(links).constants_view().internal_range.end
                ==> final(links).view().contains(Link { index: a, source: 0, target: 0 }),
{
    proof {
        links.lemma_inv();
    }
    let ghost c = links.constants_view();
    let ghost start = links.view();
    let mut non_existent: Vec<u64> = Vec::new();
    let mut i: usize = 0;
    while i < addresses.len()
        invariant
            links.inv(),
            *links == *old(links),
            links.view() == start,
            links.constants_view() == c,
            i <= addresses@.len(),
            forall|a: u64| #[trigger] non_existent@.contains(a) <==> (addresses@.take(i as int).contains(a) && a != 0 && !link_exists(c, start, a)),
        decreases addresses@.len() - i,
    {
        let address = addresses[i];
        let keep = address != 0 && !links.exist(address);
        let ghost ne0 = non_existent@;
        proof {
            assert(addresses@.take(i as int + 1) =~= addresses@.take(i as int).push(address));
        }
        if keep {
            non_existent.push(address);
        }
        proof {
            assert forall|a: u64| #[trigger] non_existent@.contains(a) <==> (addresses@.take(i as int + 1).contains(a) && a != 0 && !link_exists(c, start, a)) by {
                let t0 = addresses@.take(i as int);
                let t1 = addresses@.take(i as int + 1);
                if t1.contains(a) {
                    let j = choose|j: int| 0 <= j < t1.len() && t1[j] == a;
                    if j < i {
                        assert(t0[j] == a);
                    }
                }
                if t0.contains(a) {
                    let j = choose|j: int| 0 <= j < t0.len() && t0[j] == a;
                    assert(t1[j] == a);
                }
                assert(ne0.contains(a) <==> (t0.contains(a) && a != 0 && !link_exists(c, start, a)));
                assert(t1[i as int] == address);
                assert(keep == (address != 0 && !link_exists(c, start, address)));
                if keep {
                    assert(non_existent@ == ne0.push(address));
                    if a == address {
                        assert(non_existent@[non_existent@.len() - 1] == a);
                    }
                    if non_existent@.contains(a) && a != address {
                        let j = choose|j: int| 0 <= j < non_existent@.len() && non_existent@[j] == a;
                        assert(ne0[j] == a);
                    }
                    if ne0.contains(a) {
                        let j = choose|j: int| 0 <= j < ne0.len() && ne0[j] == a;
                        assert(non_existent@[j] == a);
                    }
                }
            }
        }
        i = i + 1;
    }
    proof {
        assert(addresses@.take(i as int) =~= addresses@);
    }
    if non_existent.len() == 0 {
        proof {
            assert forall|a: u64| !missing(c, start, a, addresses@) by {
                if missing(c, start, a, addresses@) {
                    assert(non_existent@.contains(a));
                }
            }
        }
        return Ok(());
    }
    proof {
        assert(non_existent@.contains(non_existent@[0]));
        assert(missing(c, start, non_existent@[0], addresses@));
    }
    let mut requested = non_existent[0];
    let mut j: usize = 1;
    while j < non_existent.len()
        invariant
            1 <= j <= non_existent@.len(),
            non_existent@.contains(requested),
            forall|q: int| 0 <= q < j ==> #[trigger] non_existent@[q] <= requested,
        decreases non_existent@.len() - j,
    {
        if non_existent[j] > requested {
            requested = non_existent[j];
        }
        j = j + 1;
    }
    proof {
        assert forall|a: u64| #[trigger] missing(c, start, a, addresses@) implies a <= requested by {
            assert(non_existent@.contains(a));
            let q = choose|q: int| 0 <= q < non_existent@.len() && non_existent@[q] == a;
            assert(non_existent@[q] <= requested);
        }
        assert(largest_missing(c, start, addresses@, requested));
    }
    let end = links.constants().internal_range.end;
    let max = if requested < end { requested } else { end };
    let ghost first = links.next_index();
    let mut created: Vec<u64> = Vec::new();
    let empty: [u64; 0] = [];
    loop
        invariant_except_break
            forall|k: int| 0 <= k < created@.len() ==> #[trigger] created@[k] < max,
        invariant
            first == old(links).next_index(),
            largest_missing(c, start, addresses@, requested),
            max == run_bound(requested, c.internal_range.end),
            created@.len() == 0 ==> links.next_index() == first,
            created@.len() > 0 ==> created@[0] == first,
            links.inv(),
            links.constants_view() == c,
            start == old(links).view(),
            c == old(links).constants_view(),
            sorted(start),
            forall|l: Link| #[trigger] start.contains(l) ==> links.view().contains(l),
            forall|l: Link| #[trigger] links.view().contains(l) && !start.contains(l) ==> l.source == 0 && l.target == 0 && created@.contains(l.index) && !has_index(start, l.index),
            forall|k: int| 0 <= k < created@.len() ==> has_index(links.view(), #[trigger] created@[k]) && !has_index(start, created@[k]),
            forall|k1: int, k2: int| 0 <= k1 < k2 < created@.len() ==> created@[k1] != created@[k2],
            forall|a: u64| #[trigger] non_existent@.contains(a) <==> (addresses@.contains(a) && a != 0 && !link_exists(c, start, a)),
            non_existent@.len() > 0,
            missing(c, start, non_existent@[0], addresses@),
            L::fills_lowest_free() && created@.len() > 0 ==> forall|a: u64|
                c.internal_range.start <= a <= created@[created@.len() - 1] ==> #[trigger] has_index(links.view(), a),
        ensures
            created@.len() > 0,
            created@[created@.len() - 1] >= max,
            forall|k: int| 0 <= k < created@.len() - 1 ==> #[trigger] created@[k] < max,
        decreases MAX_LINKS - links.view().len(),
    {
        proof {
            links.lemma_inv();
        }
        let ghost before = links.view();
        let ghost before_store = *links;
        let link = match links.create_by(&empty) {
            Ok(link) => link,
            Err(e) => return Err(e),
        };
        proof {
            let new_link = Link { index: link, source: 0, target: 0 };
            if L::fills_lowest_free() {
                before_store.lemma_next_is_lowest_free();
                lemma_insert_sorted_contains(before, new_link, new_link);
                assert forall|a: u64| c.internal_range.start <= a <= link implies #[trigger] has_index(links.view(), a) by {
                    if a < link {
                        assert(has_index(before_store.view(), a));
                    }
                }
            }
            assert forall|l: Link| #[trigger] links.view().contains(l) <==> (before.contains(l) || l == new_link) by {
                lemma_insert_sorted_contains(before, new_link, l);
            }
            lemma_insert_sorted_contains(before, new_link, new_link);
            links.lemma_inv();
            assert(!has_index(start, link)) by {
                if has_index(start, link) {
                    let k = choose|k: int| 0 <= k < start.len() && start[k].index == link;
                    assert(start.contains(start[k]));
                    assert(before.contains(start[k]));
                    lemma_sorted_contains(before, start[k]);
                }
            }
            assert forall|k: int| 0 <= k < created@.len() implies created@[k] != link by {
                assert(has_index(before, created@[k]));
            }
        }
        let ghost created0 = created@;
        created.push(link);
        proof {
            assert(created@[created@.len() - 1] == link);
            assert forall|x: u64| #[trigger] created0.contains(x) implies created@.contains(x) by {
                let j = choose|j: int| 0 <= j < created0.len() && created0[j] == x;
                assert(created@[j] == x);
            }
        }
        if link >= max {
            break;
        }
    }
    proof {
        assert(created@.subrange(0, created@.len() as int) =~= created@);
        if L::fills_lowest_free() {
            assert forall|a: u64| #[trigger] missing(c, start, a, addresses@) && c.internal_range.start <= a <= c.internal_range.end
                implies created@.contains(a) by {
                assert(has_index(links.view(), a));
                let q = choose|q: int| 0 <= q < links.view().len() && links.view()[q].index == a;
                assert(links.view().contains(links.view()[q]));
                if start.contains(links.view()[q]) {
                    let p = choose|p: int| 0 <= p < start.len() && start[p] == links.view()[q];
                    assert(has_index(start, a));
                }
            }
        }
    }
    let mut k: usize = 0;
    while k < created.len()
        invariant
            links.inv(),
            links.constants_view() == c,
            start == old(links).view(),
            c == old(links).constants_view(),
            sorted(start),
            k <= created@.len(),
            forall|l: Link| #[trigger] start.contains(l) ==> links.view().contains(l),
            forall|l: Link| #[trigger] links.view().contains(l) && !start.contains(l) ==> l.source == 0 && l.target == 0 && !has_index(start, l.index)
                && created@.contains(l.index) && (non_existent@.contains(l.index) || created@.subrange(k as int, created@.len() as int).contains(l.index)),
            forall|j: int| k <= j < created@.len() ==> has_index(links.view(), #[trigger] created@[j]) && !has_index(start, created@[j]),
            forall|j: int| 0 <= j < k && non_existent@.contains(#[trigger] created@[j]) ==> has_index(links.view(), created@[j]),
            forall|k1: int, k2: int| 0 <= k1 < k2 < created@.len() ==> created@[k1] != created@[k2],
            forall|a: u64| #[trigger] non_existent@.contains(a) <==> (addresses@.contains(a) && a != 0 && !link_exists(c, start, a)),
            non_existent@.len() > 0,
            missing(c, start, non_existent@[0], addresses@),
            first == old(links).next_index(),
            largest_missing(c, start, addresses@, requested),
            creation_run(start, created@, first, max),
            max == run_bound(requested, c.internal_range.end),
            L::fills_lowest_free() ==> forall|a: u64| #[trigger] missing(c, start, a, addresses@)
                && c.internal_range.start <= a <= c.internal_range.end ==> created@.contains(a),
        decreases created@.len() - k,
    {
        let link = created[k];
        proof {
            links.lemma_inv();
        }
        let ghost before = links.view();
        if !holds(&non_existent, link) {
            let query = [link];
            proof {
                assert(query@ =~= seq![link]);
            }
            match links.delete_by(&query) {
                Ok(_) => {},
                Err(e) => return Err(e),
            }
            proof {
                assert forall|l: Link| #[trigger] links.view().contains(l) <==> (before.contains(l) && l.index != link) by {
                    lemma_remove_index_contains(before, link, l);
                }
                assert forall|j: int| k < j < created@.len() implies has_index(links.view(), #[trigger] created@[j]) by {
                    let q = choose|q: int| 0 <= q < before.len() && before[q].index == created@[j];
                    assert(before.contains(before[q]));
                    assert(links.view().contains(before[q]));
                }
                assert forall|j: int| 0 <= j < k && non_existent@.contains(#[trigger] created@[j]) implies has_index(links.view(), created@[j]) by {
                    let q = choose|q: int| 0 <= q < before.len() && before[q].index == created@[j];
                    assert(before.contains(before[q]));
                    assert(links.view().contains(before[q]));
                }
            }
        }
        proof {
            let s0 = created@.subrange(k as int, created@.len() as int);
            let s1 = created@.subrange(k as int + 1, created@.len() as int);
            assert forall|x: u64| s0.contains(x) && x != link implies s1.contains(x) by {
                let j = choose|j: int| 0 <= j < s0.len() && s0[j] == x;
                assert(j > 0);
                assert(s1[j - 1] == x);
            }
            assert forall|x: u64| s1.contains(x) implies s0.contains(x) && x != link by {
                let j = choose|j: int| 0 <= j < s1.len() && s1[j] == x;
                assert(s0[j + 1] == x);
            }
        }
        k = k + 1;
    }
    proof {
        assert(created@.subrange(created@.len() as int, created@.len() as int) =~= Seq::<u64>::empty());
        links.lemma_inv();
        let v1 = links.view();
        assert forall|l: Link| #[trigger] v1.contains(l) <==> (start.contains(l) || (l.source == 0 && l.target == 0
            && created@.contains(l.index) && missing(c, start, l.index, addresses@))) by {
            if l.source == 0 && l.target == 0 && created@.contains(l.index) && missing(c, start, l.index, addresses@) {
                let j = choose|j: int| 0 <= j < created@.len() && created@[j] == l.index;
                assert(non_existent@.contains(created@[j]));
                assert(has_index(v1, created@[j]));
                let q = choose|q: int| 0 <= q < v1.len() && v1[q].index == l.index;
                assert(v1.contains(v1[q]));
                assert(!start.contains(v1[q])) by {
                    if start.contains(v1[q]) {
                        let p = choose|p: int| 0 <= p < start.len() && start[p] == v1[q];
                        assert(has_index(start, l.index));
                    }
                }
                assert(v1[q] == l);
            }
        }
    }
    Ok(())
}

} // verus!
