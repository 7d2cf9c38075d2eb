//! The mathematical model of a links store: what a query matches, how the stored
//! links are ordered, and what a traversal reports to its handler.
use crate::constants::LinksConstants;
use crate::data::Link;
use crate::platform::link::Flow;
use vstd::prelude::*;

verus! {

/// The most links a store in memory can hold: each takes 24 bytes, and no allocation
/// can exceed `isize::MAX` bytes, so no store ever reaches this count.
pub const MAX_LINKS: u64 = 0x0100_0000_0000_0000;

/// Part `i` of a query, or the null address when the query is shorter.
pub open spec fn part(query: Seq<u64>, i: u64) -> u64 {
    if (i as int) < query.len() {
        query[i as int]
    } else {
        0
    }
}

/// A query value `want` accepts `have` when it is `any` or equal to it.
pub open spec fn fits(c: LinksConstants, want: u64, have: u64) -> bool {
    want == c.any || want == have
}

/// Whether `link` matches `query`.
///
/// - `[]` matches every link;
/// - `[index]` matches the link with that index (`any` matches all);
/// - `[index, value]` matches when the index fits and `value` is `any`, the source or
///   the target;
/// - `[index, source, target, ..]` matches when each of the three parts fits; later
///   parts are ignored.
pub open spec fn query_matches(c: LinksConstants, link: Link, query: Seq<u64>) -> bool {
    if query.len() == 0 {
        true
    } else if query.len() == 1 {
        fits(c, query[0], link.index)
    } else if query.len() == 2 {
        fits(c, query[0], link.index) && (query[1] == c.any || query[1] == link.source
            || query[1] == link.target)
    } else {
        fits(c, query[0], link.index) && fits(c, query[1], link.source) && fits(c, query[2], link.target)
    }
}

/// `matches` as a predicate over links.
pub open spec fn query_pred(c: LinksConstants, query: Seq<u64>) -> spec_fn(Link) -> bool {
    |link: Link| query_matches(c, link, query)
}

/// The stored links that match `query`, in store order.
pub open spec fn matching(c: LinksConstants, links: Seq<Link>, query: Seq<u64>) -> Seq<Link> {
    links.filter(query_pred(c, query))
}

/// The links are in strictly increasing index order (so no index occurs twice).
pub open spec fn sorted(links: Seq<Link>) -> bool {
    forall|i: int, j: int| 0 <= i < j < links.len() ==> links[i].index < links[j].index
}

/// Some stored link has index `index`.
pub open spec fn has_index(links: Seq<Link>, index: u64) -> bool {
    exists|k: int| 0 <= k < links.len() && links[k].index == index
}

/// The position of the link with index `index`.
pub open spec fn position(links: Seq<Link>, index: u64) -> int {
    choose|k: int| 0 <= k < links.len() && links[k].index == index
}

/// The stored link with index `index`, if there is one.
pub open spec fn lookup(links: Seq<Link>, index: u64) -> Option<Link> {
    if has_index(links, index) {
        Some(links[position(links, index)])
    } else {
        None
    }
}

/// `p` is where a link with index `index` goes to keep the links in index order.
pub open spec fn is_insert_point(links: Seq<Link>, index: u64, p: int) -> bool {
    &&& 0 <= p <= links.len()
    &&& forall|k: int| 0 <= k < p ==> (#[trigger] links[k]).index < index
    &&& forall|k: int| p <= k < links.len() ==> (#[trigger] links[k]).index > index
}

/// Where a link with index `index` goes to keep the links in index order.
pub open spec fn insert_point(links: Seq<Link>, index: u64) -> int {
    choose|p: int| is_insert_point(links, index, p)
}

/// The links with `link` added in index order.
pub open spec fn insert_sorted(links: Seq<Link>, link: Link) -> Seq<Link> {
    links.insert(insert_point(links, link.index), link)
}

/// The links with the link of index `index` replaced by `link`.
pub open spec fn replace_at(links: Seq<Link>, index: u64, link: Link) -> Seq<Link> {
    links.update(position(links, index), link)
}

/// The links without the link of index `index`.
pub open spec fn remove_index(links: Seq<Link>, index: u64) -> Seq<Link> {
    links.remove(position(links, index))
}

/// The parts of a link sit at positions 0, 1 and 2 of a query, and `any` is not an
/// internal address.
pub open spec fn standard_parts(c: LinksConstants) -> bool {
    &&& c.index_part == 0
    &&& c.source_part == 1
    &&& c.target_part == 2
    &&& !c.spec_is_internal(c.any)
}

/// What a store that is well formed guarantees of its links: index order, every index
/// internal, and a count below `MAX_LINKS`; and of its constants: the standard parts.
pub open spec fn store_ok(c: LinksConstants, links: Seq<Link>) -> bool {
    &&& standard_parts(c)
    &&& sorted(links)
    &&& forall|k: int| 0 <= k < links.len() ==> c.spec_is_internal(#[trigger] links[k].index)
    &&& links.len() <= MAX_LINKS
}

/// `b` starts with `a`.
pub open spec fn extends<A>(a: Seq<A>, b: Seq<A>) -> bool {
    a.len() <= b.len() && b.subrange(0, a.len() as int) == a
}

/// What `b` holds after its prefix `a`.
pub open spec fn added<A>(a: Seq<A>, b: Seq<A>) -> Seq<A> {
    b.subrange(a.len() as int, b.len() as int)
}

/// Extending a record keeps what it extended, and adds the new entry to what was added.
pub proof fn lemma_extends_push<A>(a: Seq<A>, b: Seq<A>, x: A)
    requires
        extends(a, b),
    ensures
        extends(a, b.push(x)),
        added(a, b.push(x)) == added(a, b).push(x),
{
    assert(b.push(x).subrange(0, a.len() as int) == b.subrange(0, a.len() as int));
    assert(added(a, b.push(x)) =~= added(a, b).push(x));
}

/// A record extends itself, with nothing added.
pub proof fn lemma_extends_refl<A>(a: Seq<A>)
    ensures
        extends(a, a),
        added(a, a) == Seq::<A>::empty(),
{
    assert(a.subrange(0, a.len() as int) =~= a);
    assert(added(a, a) =~= Seq::<A>::empty());
}

/// A traversal over `m` that reported `ext` to its handler and returned `r`: it visits
/// `m` in order, goes on while the handler answers `Continue`, and stops at the first
/// `Break`, which it returns.
pub open spec fn each_outcome(m: Seq<Link>, ext: Seq<(Link, Flow)>, r: Flow) -> bool {
    &&& ext.len() <= m.len()
    &&& forall|i: int| 0 <= i < ext.len() ==> (#[trigger] ext[i]).0 == m[i]
    &&& forall|i: int| 0 <= i < ext.len() - 1 ==> (#[trigger] ext[i]).1 == Flow::Continue
    &&& r == Flow::Continue ==> ext.len() == m.len() && (ext.len() == 0 || ext.last().1
        == Flow::Continue)
    &&& r == Flow::Break ==> ext.len() > 0 && ext.last().1 == Flow::Break
}

/// In index order, each position is the only one holding its index.
pub proof fn lemma_sorted_position(links: Seq<Link>, k: int)
    requires
        sorted(links),
        0 <= k < links.len(),
    ensures
        has_index(links, links[k].index),
        position(links, links[k].index) == k,
        lookup(links, links[k].index) == Some(links[k]),
{
    let p = position(links, links[k].index);
    assert(0 <= k < links.len() && links[k].index == links[k].index);
    if p != k {
        if p < k {
            assert(links[p].index < links[k].index);
        } else {
            assert(links[k].index < links[p].index);
        }
    }
}

/// In index order, a place where a new index fits is the only such place, and the
/// links stay in order with the new link put there.
pub proof fn lemma_insert_at(links: Seq<Link>, link: Link, p: int)
    requires
        sorted(links),
        is_insert_point(links, link.index, p),
    ensures
        insert_point(links, link.index) == p,
        insert_sorted(links, link) == links.insert(p, link),
        sorted(links.insert(p, link)),
        !has_index(links, link.index),
{
    let q = insert_point(links, link.index);
    assert(is_insert_point(links, link.index, q));
    if q < p {
        assert(links[q].index > link.index);
        assert(links[q].index < link.index);
    } else if p < q {
        assert(links[p].index > link.index);
        assert(links[p].index < link.index);
    }
    let s = links.insert(p, link);
    assert forall|i: int, j: int| 0 <= i < j < s.len() implies s[i].index < s[j].index by {
        if j < p {
        } else if j == p {
        } else if i < p {
        } else if i == p {
            assert(s[j] == links[j - 1]);
        } else {
            assert(s[i] == links[i - 1]);
            assert(s[j] == links[j - 1]);
        }
    }
    if has_index(links, link.index) {
        let k = choose|k: int| 0 <= k < links.len() && links[k].index == link.index;
        if k < p {
        } else {
        }
    }
}

/// Filtering a prefix gives a prefix of the filtered sequence.
pub proof fn lemma_filter_prefix(s: Seq<Link>, pred: spec_fn(Link) -> bool, n: int)
    requires
        0 <= n <= s.len(),
    ensures
        s.take(n).filter(pred).len() <= s.filter(pred).len(),
        forall|j: int|
            0 <= j < s.take(n).filter(pred).len() ==> #[trigger] s.take(n).filter(pred)[j]
                == s.filter(pred)[j],
    decreases s.len() - n,
{
    if n < s.len() {
        lemma_filter_prefix(s, pred, n + 1);
        assert(s.take(n + 1) == s.take(n).push(s[n]));
        s.take(n).lemma_filter_push(s[n], pred);
        assert forall|j: int|
            0 <= j < s.take(n).filter(pred).len() implies #[trigger] s.take(n).filter(pred)[j]
                == s.filter(pred)[j] by {
            assert(s.take(n + 1).filter(pred)[j] == s.take(n).filter(pred)[j]);
        }
    } else {
        assert(s.take(n) == s);
    }
}

/// The empty query matches every link.
pub proof fn lemma_matching_all(c: LinksConstants, links: Seq<Link>)
    ensures
        matching(c, links, Seq::<u64>::empty()) == links,
    decreases links.len(),
{
    reveal(Seq::filter);
    if links.len() > 0 {
        lemma_matching_all(c, links.drop_last());
        assert(links.drop_last().push(links.last()) =~= links);
    }
}

/// A link of the store is among the links that match a query it matches.
pub proof fn lemma_matching_contains(c: LinksConstants, links: Seq<Link>, query: Seq<u64>, k: int)
    requires
        0 <= k < links.len(),
        query_matches(c, links[k], query),
    ensures
        matching(c, links, query).contains(links[k]),
        matching(c, links, query).len() > 0,
{
    links.lemma_filter_contains(query_pred(c, query), k);
}

/// Every link that matches a query is a link of the store that matches it.
pub proof fn lemma_matching_member(c: LinksConstants, links: Seq<Link>, query: Seq<u64>, j: int)
    requires
        0 <= j < matching(c, links, query).len(),
    ensures
        links.contains(matching(c, links, query)[j]),
        query_matches(c, matching(c, links, query)[j], query),
{
    links.lemma_filter_pred(query_pred(c, query), j);
    #[allow(deprecated)]
    links.filter_lemma(query_pred(c, query));
    lemma_filter_member(links, query_pred(c, query), j);
}

/// The elements of a filtered sequence come from the sequence.
pub proof fn lemma_filter_member<A>(s: Seq<A>, pred: spec_fn(A) -> bool, j: int)
    requires
        0 <= j < s.filter(pred).len(),
    ensures
        s.contains(s.filter(pred)[j]),
    decreases s.len(),
{
    reveal(Seq::filter);
    let sub = s.drop_last().filter(pred);
    if pred(s.last()) && j == sub.len() {
        assert(s[s.len() - 1] == s.last());
    } else {
        lemma_filter_member(s.drop_last(), pred, j);
        let k = choose|k: int| 0 <= k < s.drop_last().len() && s.drop_last()[k] == sub[j];
        assert(s[k] == sub[j]);
    }
}

/// Setting the contents of a link just created is the same as creating it with them.
pub proof fn lemma_replace_after_insert(links: Seq<Link>, created: Link, changed: Link)
    requires
        sorted(links),
        !has_index(links, created.index),
        changed.index == created.index,
    ensures
        sorted(insert_sorted(links, created)),
        has_index(insert_sorted(links, created), created.index),
        lookup(insert_sorted(links, created), created.index) == Some(created),
        replace_at(insert_sorted(links, created), created.index, changed) == insert_sorted(links, changed),
{
    let p = lemma_insert_point_exists(links, created.index);
    lemma_insert_at(links, created, p);
    lemma_insert_at(links, changed, p);
    let s = links.insert(p, created);
    lemma_sorted_position(s, p);
    assert(s.update(p, changed) =~= links.insert(p, changed));
}

/// A sorted sequence has a place for every index it does not hold.
pub proof fn lemma_insert_point_exists(links: Seq<Link>, index: u64) -> (p: int)
    requires
        sorted(links),
        !has_index(links, index),
    ensures
        is_insert_point(links, index, p),
    decreases links.len(),
{
    if links.len() == 0 {
        0
    } else if links.last().index < index {
        links.len() as int
    } else {
        let q = lemma_insert_point_exists(links.drop_last(), index);
        assert(links.last().index != index);
        assert forall|k: int| q <= k < links.len() implies (#[trigger] links[k]).index > index by {
            if k < links.len() - 1 {
                assert(links.drop_last()[k] == links[k]);
            }
        }
        assert forall|k: int| 0 <= k < q implies (#[trigger] links[k]).index < index by {
            assert(links.drop_last()[k] == links[k]);
        }
        q
    }
}

/// A traversal whose handler answered `Continue` every time visited every link.
pub proof fn lemma_each_all(m: Seq<Link>, ext: Seq<(Link, Flow)>, r: Flow)
    requires
        each_outcome(m, ext, r),
        forall|i: int| 0 <= i < ext.len() ==> (#[trigger] ext[i]).1 == Flow::Continue,
    ensures
        ext.len() == m.len(),
        ext.map_values(|c: (Link, Flow)| c.0) == m,
{
    if r == Flow::Break {
        assert(ext[ext.len() - 1].1 == Flow::Continue);
    }
    assert(ext.map_values(|c: (Link, Flow)| c.0) =~= m);
}

/// Filtering links in index order keeps them in index order.
pub proof fn lemma_filter_sorted(links: Seq<Link>, pred: spec_fn(Link) -> bool)
    requires
        sorted(links),
    ensures
        sorted(links.filter(pred)),
    decreases links.len(),
{
    reveal(Seq::filter);
    if links.len() > 0 {
        let sub = links.drop_last().filter(pred);
        lemma_filter_sorted(links.drop_last(), pred);
        if pred(links.last()) {
            assert forall|j: int| 0 <= j < sub.len() implies (#[trigger] sub[j]).index < links.last().index by {
                lemma_filter_member(links.drop_last(), pred, j);
                let k = choose|k: int| 0 <= k < links.drop_last().len() && links.drop_last()[k] == sub[j];
                assert(links[k] == sub[j]);
            }
        }
    }
}

/// In index order, a link is stored exactly when its index is and the stored link with
/// that index is it.
pub proof fn lemma_sorted_contains(links: Seq<Link>, link: Link)
    requires
        sorted(links),
    ensures
        links.contains(link) <==> (has_index(links, link.index) && links[position(links, link.index)] == link),
{
    if links.contains(link) {
        let k = choose|k: int| 0 <= k < links.len() && links[k] == link;
        lemma_sorted_position(links, k);
    }
    if has_index(links, link.index) {
        let k = choose|k: int| 0 <= k < links.len() && links[k].index == link.index;
        lemma_sorted_position(links, k);
    }
}

/// Removing the link with an index removes exactly the links with that index.
pub proof fn lemma_remove_index_contains(links: Seq<Link>, index: u64, link: Link)
    requires
        sorted(links),
        has_index(links, index),
    ensures
        remove_index(links, index).contains(link) <==> (links.contains(link) && link.index != index),
        sorted(remove_index(links, index)),
{
    let p = position(links, index);
    let s = links.remove(p);
    assert(0 <= p < links.len() && links[p].index == index);
    if s.contains(link) {
        let k = choose|k: int| 0 <= k < s.len() && s[k] == link;
        if k < p {
            assert(links[k] == link);
            assert(links[k].index < links[p].index);
        } else {
            assert(links[k + 1] == link);
            assert(links[p].index < links[k + 1].index);
        }
    }
    if links.contains(link) && link.index != index {
        let k = choose|k: int| 0 <= k < links.len() && links[k] == link;
        if k < p {
            assert(s[k] == link);
        } else {
            assert(k != p);
            assert(s[k - 1] == link);
        }
    }
    assert forall|i: int, j: int| 0 <= i < j < s.len() implies s[i].index < s[j].index by {
        if j < p {
        } else if i < p {
            assert(s[j] == links[j + 1]);
        } else {
            assert(s[i] == links[i + 1]);
            assert(s[j] == links[j + 1]);
        }
    }
}

/// A link is among those matching a query exactly when it is stored and matches it.
pub proof fn lemma_matching_contains_iff(c: LinksConstants, links: Seq<Link>, query: Seq<u64>, link: Link)
    ensures
        matching(c, links, query).contains(link) <==> (links.contains(link) && query_matches(c, link, query)),
{
    if matching(c, links, query).contains(link) {
        let j = choose|j: int| 0 <= j < matching(c, links, query).len() && matching(c, links, query)[j] == link;
        lemma_matching_member(c, links, query, j);
    }
    if links.contains(link) && query_matches(c, link, query) {
        let k = choose|k: int| 0 <= k < links.len() && links[k] == link;
        lemma_matching_contains(c, links, query, k);
    }
}

/// Adding a link with a new index in index order adds exactly that link.
pub proof fn lemma_insert_sorted_contains(links: Seq<Link>, link: Link, l: Link)
    requires
        sorted(links),
        !has_index(links, link.index),
    ensures
        insert_sorted(links, link).len() == links.len() + 1,
        insert_sorted(links, link).contains(l) <==> (links.contains(l) || l == link),
        sorted(insert_sorted(links, link)),
        has_index(insert_sorted(links, link), link.index),
        forall|i: u64| has_index(links, i) ==> has_index(insert_sorted(links, link), i),
{
    let p = lemma_insert_point_exists(links, link.index);
    lemma_insert_at(links, link, p);
    let s = links.insert(p, link);
    links.insert_ensures(p, link);
    if s.contains(l) {
        let k = choose|k: int| 0 <= k < s.len() && s[k] == l;
        if k < p {
            assert(links[k] == l);
        } else if k > p {
            assert(links[k - 1] == l);
        }
    }
    if links.contains(l) {
        let k = choose|k: int| 0 <= k < links.len() && links[k] == l;
        if k < p {
            assert(s[k] == l);
        } else {
            assert(s[k + 1] == l);
        }
    }
    assert(s[p] == link);
    assert forall|i: u64| has_index(links, i) implies has_index(s, i) by {
        let k = choose|k: int| 0 <= k < links.len() && links[k].index == i;
        if k < p {
            assert(s[k] == links[k]);
        } else {
            assert(s[k + 1] == links[k]);
        }
    }
}

} // verus!
