//! What holds across the operations of a store: what a read gives back after a write,
//! what one call undoes of another, and what a refused call leaves behind.
use crate::constants::{full_constants, ranges_apart, LinksConstants, Range};
use crate::data::{Error, Link};
use crate::handler::{fuse_step, Fuse, WriteHandler};
use crate::ffi::constants::{laid_out, same_constants, taken_back, Constants};
use crate::ffi::utils::{Fallible, NoneValue};
use crate::decorators::usages::{in_cascade, lemma_reach_step, uses};
use crate::model::{
    has_index, insert_sorted, lemma_insert_at, lemma_insert_point_exists, lemma_insert_sorted_contains,
    lemma_matching_contains_iff, lemma_remove_index_contains, lemma_sorted_contains, lemma_sorted_position, lookup,
    matching, position, query_matches, remove_index, replace_at, sorted, store_ok,
};
use crate::platform::link::Flow;
use crate::traits::{
    create_effect, delete_effect, first_repeat_from, indices_except, link_exists, rebased, update_effect, usage_count,
    usages_to_delete,
};
use crate::decorators::helpers::{first_missing_from, resolved};
use crate::memory::{restricts, restriction_pred};
use crate::model::{part, query_pred};
use crate::traits::lemma_count_index;
use vstd::prelude::*;

verus! {

/// Two stores in index order that hold the same links with index `i` give the same
/// answer when `i` is looked up.
proof fn lemma_lookup_same(v0: Seq<Link>, v1: Seq<Link>, i: u64)
    requires
        sorted(v0),
        sorted(v1),
        forall|l: Link| l.index == i ==> (v0.contains(l) <==> v1.contains(l)),
    ensures
        lookup(v0, i) == lookup(v1, i),
{
    if has_index(v0, i) {
        let k = choose|k: int| 0 <= k < v0.len() && v0[k].index == i;
        lemma_sorted_position(v0, k);
        assert(v0.contains(v0[k]));
        lemma_sorted_contains(v1, v0[k]);
    }
    if has_index(v1, i) {
        let k = choose|k: int| 0 <= k < v1.len() && v1[k].index == i;
        lemma_sorted_position(v1, k);
        assert(v1.contains(v1[k]));
        lemma_sorted_contains(v0, v1[k]);
    }
}

/// After a successful create, the new link is `(next, null, null)`, every other index
/// reads as before, and the store holds one link more.
pub proof fn law_get_after_create(
    v0: Seq<Link>,
    next: u64,
    v1: Seq<Link>,
    h0: Seq<(Link, Link, Flow)>,
    h1: Seq<(Link, Link, Flow)>,
    r: Result<Flow, Error>,
)
    requires
        sorted(v0),
        create_effect(v0, next, v1, h0, h1, r),
        r is Ok,
    ensures
        lookup(v1, next) == Some(Link { index: next, source: 0, target: 0 }),
        forall|i: u64| i != next ==> lookup(v1, i) == lookup(v0, i),
        v1.len() == v0.len() + 1,
        sorted(v1),
{
    let link = Link { index: next, source: 0, target: 0 };
    let p = lemma_insert_point_exists(v0, next);
    lemma_insert_at(v0, link, p);
    lemma_sorted_position(v1, p);
    assert forall|i: u64| i != next implies lookup(v1, i) == lookup(v0, i) by {
        assert forall|l: Link| l.index == i implies (v0.contains(l) <==> v1.contains(l)) by {
            lemma_insert_sorted_contains(v0, link, l);
        }
        lemma_lookup_same(v0, v1, i);
    }
}

/// After a successful update of `index`, it reads as the new source and target, every
/// other index reads as before, and the store holds as many links.
pub proof fn law_get_after_update(
    v0: Seq<Link>,
    query: Seq<u64>,
    change: Seq<u64>,
    v1: Seq<Link>,
    h0: Seq<(Link, Link, Flow)>,
    h1: Seq<(Link, Link, Flow)>,
    r: Result<Flow, Error>,
)
    requires
        sorted(v0),
        update_effect(v0, query, change, v1, h0, h1, r),
        r is Ok,
    ensures
        ({
            let index = crate::model::part(query, 0);
            &&& lookup(v1, index) == Some(Link { index, source: crate::model::part(change, 1), target: crate::model::part(change, 2) })
            &&& forall|i: u64| i != index ==> lookup(v1, i) == lookup(v0, i)
            &&& v1.len() == v0.len()
            &&& sorted(v1)
        }),
{
    let index = crate::model::part(query, 0);
    let after = Link { index, source: crate::model::part(change, 1), target: crate::model::part(change, 2) };
    let p = position(v0, index);
    lemma_sorted_position(v0, p);
    assert forall|a: int, b: int| 0 <= a < b < v1.len() implies v1[a].index < v1[b].index by {
        assert(v0[a].index < v0[b].index);
    }
    lemma_sorted_position(v1, p);
    assert forall|i: u64| i != index implies lookup(v1, i) == lookup(v0, i) by {
        assert forall|l: Link| l.index == i implies (v0.contains(l) <==> v1.contains(l)) by {
            if v0.contains(l) {
                let k = choose|k: int| 0 <= k < v0.len() && v0[k] == l;
                assert(v1[k] == l);
            }
            if v1.contains(l) {
                let k = choose|k: int| 0 <= k < v1.len() && v1[k] == l;
                assert(v0[k] == l);
            }
        }
        lemma_lookup_same(v0, v1, i);
    }
}

/// After a successful delete of `index`, it reads as absent, every other index reads as
/// before, and the store holds one link less.
pub proof fn law_get_after_delete(
    v0: Seq<Link>,
    query: Seq<u64>,
    v1: Seq<Link>,
    h0: Seq<(Link, Link, Flow)>,
    h1: Seq<(Link, Link, Flow)>,
    r: Result<Flow, Error>,
)
    requires
        sorted(v0),
        delete_effect(v0, query, v1, h0, h1, r),
        r is Ok,
    ensures
        ({
            let index = crate::model::part(query, 0);
            &&& lookup(v1, index) is None
            &&& forall|i: u64| i != index ==> lookup(v1, i) == lookup(v0, i)
            &&& v1.len() + 1 == v0.len()
            &&& sorted(v1)
        }),
{
    let index = crate::model::part(query, 0);
    lemma_remove_index_contains(v0, index, Link::null_link());
    if has_index(v1, index) {
        let k = choose|k: int| 0 <= k < v1.len() && v1[k].index == index;
        assert(v1.contains(v1[k]));
        lemma_remove_index_contains(v0, index, v1[k]);
    }
    assert forall|i: u64| i != index implies lookup(v1, i) == lookup(v0, i) by {
        assert forall|l: Link| l.index == i implies (v0.contains(l) <==> v1.contains(l)) by {
            lemma_remove_index_contains(v0, index, l);
        }
        lemma_lookup_same(v0, v1, i);
    }
}

/// Deleting the link a create just made gives back the store as it was.
pub proof fn law_delete_undoes_create(
    v0: Seq<Link>,
    next: u64,
    v1: Seq<Link>,
    v2: Seq<Link>,
    h0: Seq<(Link, Link, Flow)>,
    h1: Seq<(Link, Link, Flow)>,
    h2: Seq<(Link, Link, Flow)>,
    r1: Result<Flow, Error>,
    r2: Result<Flow, Error>,
)
    requires
        sorted(v0),
        create_effect(v0, next, v1, h0, h1, r1),
        r1 is Ok,
        delete_effect(v1, seq![next], v2, h1, h2, r2),
    ensures
        r2 is Ok,
        v2 == v0,
{
    let link = Link { index: next, source: 0, target: 0 };
    let p = lemma_insert_point_exists(v0, next);
    lemma_insert_at(v0, link, p);
    lemma_sorted_position(v1, p);
    assert(v1.remove(p) =~= v0);
}

/// Updating a link back to the source and target it had gives back the store as it
/// was.
pub proof fn law_update_back_restores(
    v0: Seq<Link>,
    index: u64,
    change: Seq<u64>,
    v1: Seq<Link>,
    v2: Seq<Link>,
    h0: Seq<(Link, Link, Flow)>,
    h1: Seq<(Link, Link, Flow)>,
    h2: Seq<(Link, Link, Flow)>,
    r1: Result<Flow, Error>,
    r2: Result<Flow, Error>,
)
    requires
        sorted(v0),
        has_index(v0, index),
        update_effect(v0, seq![index], change, v1, h0, h1, r1),
        update_effect(
            v1,
            seq![index],
            seq![index, lookup(v0, index)->0.source, lookup(v0, index)->0.target],
            v2,
            h1,
            h2,
            r2,
        ),
    ensures
        r1 is Ok,
        r2 is Ok,
        v2 == v0,
{
    let p = position(v0, index);
    lemma_sorted_position(v0, p);
    let after = Link { index, source: crate::model::part(change, 1), target: crate::model::part(change, 2) };
    assert forall|a: int, b: int| 0 <= a < b < v1.len() implies v1[a].index < v1[b].index by {
        assert(v0[a].index < v0[b].index);
    }
    lemma_sorted_position(v1, p);
    assert(v2 =~= v0);
}

/// A refused create, update or delete changes neither the store nor what the handler
/// received.
pub proof fn law_refusal_changes_nothing(
    v0: Seq<Link>,
    next: u64,
    query: Seq<u64>,
    change: Seq<u64>,
    v1: Seq<Link>,
    h0: Seq<(Link, Link, Flow)>,
    h1: Seq<(Link, Link, Flow)>,
    r: Result<Flow, Error>,
)
    requires
        r is Err,
        create_effect(v0, next, v1, h0, h1, r) || update_effect(v0, query, change, v1, h0, h1, r) || delete_effect(
            v0,
            query,
            v1,
            h0,
            h1,
            r,
        ),
    ensures
        v1 == v0,
        h1 == h0,
{
}

/// After a cascading deletion from `index`, no remaining link uses a link that was
/// deleted, nor `index` itself.
pub proof fn law_cascade_leaves_no_users(c: LinksConstants, v0: Seq<Link>, index: u64, v1: Seq<Link>)
    requires
        forall|l: Link| #[trigger] v1.contains(l) <==> (v0.contains(l) && !in_cascade(c, v0, index, l.index)),
    ensures
        forall|l: Link, y: u64| #[trigger] v1.contains(l) && #[trigger] in_cascade(c, v0, index, y) ==> !uses(c, l, y),
{
    assert forall|l: Link, y: u64| #[trigger] v1.contains(l) && #[trigger] in_cascade(c, v0, index, y) implies !uses(c, l, y) by {
        if uses(c, l, y) {
            let n = choose|n: nat| #[trigger] crate::decorators::usages::reach(c, v0, index, n).contains(y);
            lemma_reach_step(c, v0, index, n, l, y);
            assert(crate::decorators::usages::reach(c, v0, index, n + 1).contains(l.index));
        }
    }
}

/// After rebasing `old_link` onto another link, no link other than `old_link` has it as
/// source or target, each reference to it now names `new_link`, and links that did not
/// reference it are unchanged.
pub proof fn law_rebase_moves_references(v0: Seq<Link>, old_link: u64, new_link: u64)
    requires
        old_link != new_link,
    ensures
        ({
            let v1 = v0.map_values(|l: Link| rebased(l, old_link, new_link));
            &&& v1.len() == v0.len()
            &&& forall|k: int| 0 <= k < v1.len() && v1[k].index != old_link ==> v1[k].source != old_link && v1[k].target != old_link
            &&& forall|k: int| 0 <= k < v1.len() && v0[k].index != old_link && v0[k].source == old_link ==> v1[k].source == new_link
            &&& forall|k: int| 0 <= k < v1.len() && v0[k].index != old_link && v0[k].target == old_link ==> v1[k].target == new_link
            &&& forall|k: int|
                0 <= k < v1.len() && v0[k].source != old_link && v0[k].target != old_link ==> v1[k] == v0[k]
        }),
{
}

/// The service constants of `full_new` are neither internal nor external addresses,
/// so no stored link has one of them as its index, when the range handed to it
/// reaches down to them.
pub proof fn law_service_constants_reserved(target_part: u64, internal: Range, external: Option<Range>)
    requires
        internal.end >= 6,
        internal.start + 5 <= internal.end,
        ranges_apart(internal, external),
    ensures
        ({
            let c = full_constants(target_part, internal, external);
            forall|v: u64|
                (v == c.continue_ || v == c.break_ || v == c.skip || v == c.any || v == c.itself || v == c.error)
                    ==> !c.spec_is_internal(v) && !c.spec_is_external(v)
        }),
{
}

/// No two links of `links` share a `(source, target)` pair.
pub open spec fn unique_pairs(links: Seq<Link>) -> bool {
    forall|i: int, j: int|
        0 <= i < links.len() && 0 <= j < links.len() && i != j ==> !(links[i].source == links[j].source
            && links[i].target == links[j].target)
}

/// An update that `UniquenessValidator` lets through, one whose pair no stored link
/// matches, keeps the pairs of a store unique.
pub proof fn law_validated_update_keeps_pairs_unique(
    c: LinksConstants,
    v0: Seq<Link>,
    query: Seq<u64>,
    change: Seq<u64>,
    v1: Seq<Link>,
    h0: Seq<(Link, Link, Flow)>,
    h1: Seq<(Link, Link, Flow)>,
    r: Result<Flow, Error>,
)
    requires
        sorted(v0),
        unique_pairs(v0),
        crate::model::matching(c, v0, seq![c.any, crate::model::part(change, 1), crate::model::part(change, 2)]).len() == 0,
        update_effect(v0, query, change, v1, h0, h1, r),
    ensures
        unique_pairs(v1),
{
    let index = crate::model::part(query, 0);
    if has_index(v0, index) {
        let p = position(v0, index);
        let s = crate::model::part(change, 1);
        let t = crate::model::part(change, 2);
        assert forall|k: int| 0 <= k < v0.len() implies !(v0[k].source == s && v0[k].target == t) by {
            if v0[k].source == s && v0[k].target == t {
                crate::model::lemma_matching_contains(c, v0, seq![c.any, s, t], k);
            }
        }
        assert forall|i: int, j: int|
            0 <= i < v1.len() && 0 <= j < v1.len() && i != j implies !(v1[i].source == v1[j].source
                && v1[i].target == v1[j].target) by {
            if i != p && j != p {
                assert(v1[i] == v0[i] && v1[j] == v0[j]);
            } else if i == p {
                assert(v1[j] == v0[j]);
            } else {
                assert(v1[i] == v0[i]);
            }
        }
    }
}

/// The constants laid out for C give back the constants they were laid out from.
pub proof fn law_constants_round_trip(c: LinksConstants, f: Constants, back: LinksConstants)
    requires
        same_constants(c, f),
        same_constants(back, f),
    ensures
        back == c,
{
}

/// Laying constants out for C and taking them back gives the same constants, and the
/// other way round: `Constants::from` and `LinksConstants::from` undo each other.
pub proof fn law_constants_from_round_trip(c: LinksConstants, f: Constants)
    ensures
        taken_back(laid_out(c)) == c,
        laid_out(taken_back(f)) == f,
{
    match f.external_range {
        Fallible::Success(_) => {},
        Fallible::Failure(x) => {
            assert(x == NoneValue);
        },
    }
    assert(laid_out(taken_back(f)).external_range == f.external_range);
}

/// In index order, leaving out the links with index `x` drops one link when there is
/// one, none otherwise.
proof fn lemma_indices_except_len(links: Seq<Link>, x: u64)
    requires
        sorted(links),
    ensures
        indices_except(links, x).len() == links.len() - (if has_index(links, x) { 1int } else { 0int }),
    decreases links.len(),
{
    if links.len() > 0 {
        let prev = links.drop_last();
        assert(sorted(prev));
        lemma_indices_except_len(prev, x);
        if links.last().index == x {
            if has_index(prev, x) {
                let k = choose|k: int| 0 <= k < prev.len() && prev[k].index == x;
                assert(links[k].index < links[links.len() - 1].index);
            }
            assert(has_index(links, x)) by {
                assert(links[links.len() - 1].index == x);
            }
        } else {
            if has_index(links, x) {
                let k = choose|k: int| 0 <= k < links.len() && links[k].index == x;
                assert(prev[k].index == x);
            }
            if has_index(prev, x) {
                let k = choose|k: int| 0 <= k < prev.len() && prev[k].index == x;
                assert(links[k].index == x);
            }
        }
    }
}

/// Among the links matching `query`, one has index `index` exactly when the stored link
/// `index` matches it.
proof fn lemma_matching_has_index(c: LinksConstants, links: Seq<Link>, query: Seq<u64>, index: u64)
    requires
        sorted(links),
        has_index(links, index),
    ensures
        has_index(matching(c, links, query), index) <==> query_matches(c, lookup(links, index)->0, query),
{
    let m = matching(c, links, query);
    let k = choose|k: int| 0 <= k < links.len() && links[k].index == index;
    lemma_sorted_position(links, k);
    let l = links[k];
    lemma_matching_contains_iff(c, links, query, l);
    if has_index(m, index) {
        let j = choose|j: int| 0 <= j < m.len() && m[j].index == index;
        assert(m.contains(m[j]));
        lemma_matching_contains_iff(c, links, query, m[j]);
        lemma_sorted_contains(links, m[j]);
    }
    if query_matches(c, l, query) {
        assert(links.contains(l));
        let j = choose|j: int| 0 <= j < m.len() && m[j] == l;
        assert(m[j].index == index);
    }
}

/// The usages of a stored link, listed as `Doublets::usages` lists them, are as many as
/// `Doublets::count_usages` counts.
pub proof fn law_usages_are_counted(c: LinksConstants, links: Seq<Link>, index: u64)
    requires
        store_ok(c, links),
        has_index(links, index),
    ensures
        (indices_except(matching(c, links, seq![c.any, index, c.any]), index) + indices_except(
            matching(c, links, seq![c.any, c.any, index]),
            index,
        )).len() == usage_count(c, links, index),
{
    let k = choose|k: int| 0 <= k < links.len() && links[k].index == index;
    assert(c.spec_is_internal(links[k].index));
    assert(index != c.any);
    let src = seq![c.any, index, c.any];
    let tgt = seq![c.any, c.any, index];
    crate::model::lemma_filter_sorted(links, crate::model::query_pred(c, src));
    crate::model::lemma_filter_sorted(links, crate::model::query_pred(c, tgt));
    lemma_indices_except_len(matching(c, links, src), index);
    lemma_indices_except_len(matching(c, links, tgt), index);
    lemma_matching_has_index(c, links, src, index);
    lemma_matching_has_index(c, links, tgt, index);
}

/// Along a run of fuse calls, the fuse after `k` calls is blown exactly when one of those
/// calls answered `Break`.
proof fn lemma_fuse_blown<H: WriteHandler>(states: Seq<Fuse<H>>, changes: Seq<(Link, Link)>, answers: Seq<Flow>, k: int)
    requires
        states.len() == changes.len() + 1,
        answers.len() == changes.len(),
        !states[0].is_done(),
        forall|j: int| 0 <= j < changes.len() ==> #[trigger] fuse_step(states[j], changes[j].0, changes[j].1, answers[j], states[j + 1]),
        0 <= k < states.len(),
    ensures
        states[k].is_done() <==> exists|i: int| 0 <= i < k && #[trigger] answers[i] == Flow::Break,
    decreases k,
{
    if k > 0 {
        lemma_fuse_blown(states, changes, answers, k - 1);
        let j = k - 1;
        assert(fuse_step(states[j], changes[j].0, changes[j].1, answers[j], states[j + 1]));
        if exists|i: int| 0 <= i < k - 1 && #[trigger] answers[i] == Flow::Break {
            let i = choose|i: int| 0 <= i < k - 1 && #[trigger] answers[i] == Flow::Break;
            assert(0 <= i < k && answers[i] == Flow::Break);
        }
        if exists|i: int| 0 <= i < k && #[trigger] answers[i] == Flow::Break {
            let i = choose|i: int| 0 <= i < k && #[trigger] answers[i] == Flow::Break;
            if i < k - 1 {
                assert(0 <= i < k - 1 && answers[i] == Flow::Break);
            }
        }
    }
}

/// A fuse that starts out whole, called over and over: after some calls it is blown
/// exactly when one of them answered `Break`; once a call has answered `Break` every
/// later call answers `Break` and leaves the wrapped handler as it was; while it is whole,
/// each call passes its change to the wrapped handler and answers as the handler did.
pub proof fn law_fuse_blows_at_first_break<H: WriteHandler>(states: Seq<Fuse<H>>, changes: Seq<(Link, Link)>, answers: Seq<Flow>)
    requires
        states.len() == changes.len() + 1,
        answers.len() == changes.len(),
        !states[0].is_done(),
        forall|k: int| 0 <= k < changes.len() ==> #[trigger] fuse_step(states[k], changes[k].0, changes[k].1, answers[k], states[k + 1]),
    ensures
        forall|k: int| 0 <= k < states.len() ==> (#[trigger] states[k].is_done() <==> exists|i: int| 0 <= i < k && #[trigger] answers[i] == Flow::Break),
        forall|i: int, j: int| 0 <= i < j < answers.len() && #[trigger] answers[i] == Flow::Break
            ==> #[trigger] answers[j] == Flow::Break && states[j + 1].inner() == states[j].inner(),
        forall|k: int| 0 <= k < changes.len() && !(#[trigger] states[k]).is_done()
            ==> states[k + 1].inner().calls() == states[k].inner().calls().push((changes[k].0, changes[k].1, answers[k])),
{
    assert forall|k: int| 0 <= k < states.len() implies (#[trigger] states[k].is_done() <==> exists|i: int| 0 <= i < k && #[trigger] answers[i] == Flow::Break) by {
        lemma_fuse_blown(states, changes, answers, k);
    }
    assert forall|i: int, j: int| 0 <= i < j < answers.len() && #[trigger] answers[i] == Flow::Break
        implies #[trigger] answers[j] == Flow::Break && states[j + 1].inner() == states[j].inner() by {
        lemma_fuse_blown(states, changes, answers, j);
        assert(0 <= i < j && answers[i] == Flow::Break);
        assert(fuse_step(states[j], changes[j].0, changes[j].1, answers[j], states[j + 1]));
    }
    assert forall|k: int| 0 <= k < changes.len() && !(#[trigger] states[k]).is_done()
        implies states[k + 1].inner().calls() == states[k].inner().calls().push((changes[k].0, changes[k].1, answers[k])) by {
        assert(fuse_step(states[k], changes[k].0, changes[k].1, answers[k], states[k + 1]));
    }
}

/// Resolving a constant to a self-reference treats the source and the target each on
/// its own. The result is `[index, source, target]`, where `index` is the
/// substitution's own index or, when that is 0, the restriction's; a part that is the
/// constant becomes `index`, any other part is kept; and changing one part of the
/// substitution leaves the other resolved part as it was.
pub proof fn law_self_reference_resolves_each_part(
    constant: u64,
    restriction: Seq<u64>,
    substitution: Seq<u64>,
    other: Seq<u64>,
    c: LinksConstants,
)
    ensures
        ({
            let r = resolved(constant, restriction, substitution, c);
            let given = part(substitution, c.index_part);
            let index = if given != 0 { given } else { part(restriction, c.index_part) };
            let source = part(substitution, c.source_part);
            let target = part(substitution, c.target_part);
            &&& r.len() == 3
            &&& r[0] == index
            &&& source == constant ==> r[1] == index
            &&& source != constant ==> r[1] == source
            &&& target == constant ==> r[2] == index
            &&& target != constant ==> r[2] == target
        }),
        ({
            let r = resolved(constant, restriction, substitution, c);
            let q = resolved(constant, restriction, other, c);
            &&& (part(other, c.index_part) == part(substitution, c.index_part)
                && part(other, c.source_part) == part(substitution, c.source_part)) ==> q[0] == r[0] && q[1] == r[1]
            &&& (part(other, c.index_part) == part(substitution, c.index_part)
                && part(other, c.target_part) == part(substitution, c.target_part)) ==> q[0] == r[0] && q[2] == r[2]
        }),
{
}

/// A restriction of the in-memory store selects links by their values: one value
/// selects the link with that index; two values select the links with exactly that
/// source and that target; three values select the link with that index, source and
/// target; any other length selects nothing.
pub proof fn law_restriction_selects_by_values(links: Seq<Link>, r: Seq<u64>, l: Link)
    ensures
        r.len() == 1 ==> (links.filter(restriction_pred(r)).contains(l) <==> links.contains(l) && l.index == r[0]),
        r.len() == 2 ==> (links.filter(restriction_pred(r)).contains(l) <==> links.contains(l) && l.source == r[0]
            && l.target == r[1]),
        r.len() == 3 ==> (links.filter(restriction_pred(r)).contains(l) <==> links.contains(l) && l.index == r[0]
            && l.source == r[1] && l.target == r[2]),
        (r.len() == 0 || r.len() > 3) ==> !links.filter(restriction_pred(r)).contains(l),
{
    let f = links.filter(restriction_pred(r));
    if f.contains(l) {
        links.lemma_filter_contains_rev(restriction_pred(r), l);
        let j = choose|j: int| 0 <= j < f.len() && f[j] == l;
        links.lemma_filter_pred(restriction_pred(r), j);
    }
    if links.contains(l) && restricts(l, r) {
        let k = choose|k: int| 0 <= k < links.len() && links[k] == l;
        links.lemma_filter_contains(restriction_pred(r), k);
    }
}

/// After `delete_usages(index)` succeeds, no link left in the store other than `index`
/// has `index` as its source or its target: the links it deletes are every link that
/// uses `index`.
pub proof fn law_delete_usages_leaves_no_users(c: LinksConstants, v0: Seq<Link>, index: u64, v1: Seq<Link>)
    requires
        store_ok(c, v0),
        first_repeat_from(usages_to_delete(c, v0, index), 0) == usages_to_delete(c, v0, index).len(),
        forall|l: Link| #[trigger] v1.contains(l) <==> (v0.contains(l) && !usages_to_delete(c, v0, index).contains(l.index)),
    ensures
        forall|l: Link| #[trigger] v1.contains(l) && l.index != index ==> l.source != index && l.target != index,
{
    let d = usages_to_delete(c, v0, index);
    let by_source = seq![c.any, index, c.any];
    let by_target = seq![c.any, c.any, index];
    let s = indices_except(matching(c, v0, by_source), index);
    let t = indices_except(matching(c, v0, by_target), index);
    assert forall|l: Link| #[trigger] v1.contains(l) && l.index != index implies l.source != index && l.target != index by {
        if l.source == index {
            lemma_matching_contains_iff(c, v0, by_source, l);
            lemma_indices_except_contains(matching(c, v0, by_source), index, l);
            let k = choose|k: int| 0 <= k < s.len() && s[k] == l.index;
            assert((s + t)[k] == l.index);
            assert(d[(s + t).len() - 1 - k] == l.index);
        }
        if l.target == index {
            lemma_matching_contains_iff(c, v0, by_target, l);
            lemma_indices_except_contains(matching(c, v0, by_target), index, l);
            let k = choose|k: int| 0 <= k < t.len() && t[k] == l.index;
            assert((s + t)[s.len() + k] == l.index);
            assert(d[(s + t).len() - 1 - (s.len() + k)] == l.index);
        }
    }
}

/// Every link of `links` other than `index` gives its index to
/// `indices_except(links, index)`.
proof fn lemma_indices_except_contains(links: Seq<Link>, index: u64, l: Link)
    requires
        links.contains(l),
        l.index != index,
    ensures
        indices_except(links, index).contains(l.index),
    decreases links.len(),
{
    let rest = links.drop_last();
    if links.last() == l {
        assert(indices_except(links, index).last() == l.index);
    } else {
        let k = choose|k: int| 0 <= k < links.len() && links[k] == l;
        assert(rest[k] == l);
        lemma_indices_except_contains(rest, index, l);
        let j = choose|j: int| 0 <= j < indices_except(rest, index).len() && indices_except(rest, index)[j] == l.index;
        if links.last().index != index {
            assert(indices_except(links, index)[j] == l.index);
        }
    }
}

/// Checking the references of a query from position `j` on finds the first position
/// whose value is an internal address that does not exist, and every internal address
/// before it exists.
proof fn lemma_first_missing(c: LinksConstants, links: Seq<Link>, query: Seq<u64>, j: int)
    requires
        0 <= j <= query.len(),
    ensures
        ({
            let m = first_missing_from(c, links, query, j);
            &&& j <= m <= query.len()
            &&& m < query.len() ==> c.spec_is_internal(query[m]) && !link_exists(c, links, query[m])
            &&& forall|k: int| j <= k < m && c.spec_is_internal(#[trigger] query[k]) ==> link_exists(c, links, query[k])
        }),
    decreases query.len() - j,
{
    if j < query.len() {
        lemma_first_missing(c, links, query, j + 1);
    }
}

/// A query's references pass the existence check exactly when every internal address
/// in it, at every position, exists; when one does not, the check names the first such
/// address.
pub proof fn law_inner_references_checked_everywhere(c: LinksConstants, links: Seq<Link>, query: Seq<u64>)
    ensures
        first_missing_from(c, links, query, 0) == query.len() <==> forall|k: int|
            0 <= k < query.len() && c.spec_is_internal(#[trigger] query[k]) ==> link_exists(c, links, query[k]),
        ({
            let m = first_missing_from(c, links, query, 0);
            m < query.len() ==> 0 <= m && c.spec_is_internal(query[m]) && !link_exists(c, links, query[m])
                && forall|k: int| 0 <= k < m && c.spec_is_internal(#[trigger] query[k]) ==> link_exists(c, links, query[k])
        }),
{
    lemma_first_missing(c, links, query, 0);
}

/// A query matches a link by its values: the empty query matches every link; `[index]`
/// the link with that index; `[index, value]` a link with that index whose source or
/// target is `value`; and `[index, source, target, ..]` a link when each of the first
/// three parts is `any` or equal to the link's index, source and target. So
/// `[i, any, any]` with `i` an internal address selects just the link `i`. (`any` in a
/// part matches every value.)
pub proof fn law_query_parts_restrict_link(c: LinksConstants, links: Seq<Link>, query: Seq<u64>, l: Link, i: u64)
    ensures
        query.len() == 0 ==> (matching(c, links, query).contains(l) <==> links.contains(l)),
        query.len() == 1 ==> (matching(c, links, query).contains(l) <==> links.contains(l)
            && (query[0] == c.any || query[0] == l.index)),
        query.len() == 2 ==> (matching(c, links, query).contains(l) <==> links.contains(l)
            && (query[0] == c.any || query[0] == l.index)
            && (query[1] == c.any || query[1] == l.source || query[1] == l.target)),
        query.len() >= 3 ==> (matching(c, links, query).contains(l) <==> links.contains(l)
            && (query[0] == c.any || query[0] == l.index)
            && (query[1] == c.any || query[1] == l.source)
            && (query[2] == c.any || query[2] == l.target)),
        i != c.any ==> (matching(c, links, seq![i, c.any, c.any]).contains(l) <==> links.contains(l) && l.index == i),
        (store_ok(c, links) && c.spec_is_internal(i)) ==> (matching(c, links, seq![i, c.any, c.any]).len() != 0 <==> has_index(links, i)),
{
    lemma_matching_contains_iff(c, links, query, l);
    lemma_matching_contains_iff(c, links, seq![i, c.any, c.any], l);
    if store_ok(c, links) && c.spec_is_internal(i) {
        assert(query_pred(c, seq![i, c.any, c.any]) =~= query_pred(c, seq![i]));
        lemma_count_index(c, links, i);
    }
}

} // verus!
