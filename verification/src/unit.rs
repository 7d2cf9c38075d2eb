//! A store that keeps its links in memory, in index order.
use crate::constants::LinksConstants;
use crate::decorators::helpers::part;
use crate::data::{Error, Link};
use crate::handler::{ReadHandler, WriteHandler};
use crate::model::{
    added, each_outcome, extends, has_index, insert_sorted, is_insert_point, lemma_extends_push,
    lemma_extends_refl, lemma_filter_prefix, lemma_insert_at, lemma_sorted_position, lookup,
    matching, position, query_matches, query_pred, remove_index, replace_at, sorted,
    standard_parts, store_ok, MAX_LINKS,
};
use crate::platform::link::Flow;
use crate::traits::{Doublets, Links};
use vstd::prelude::*;

verus! {

broadcast use vstd::seq_lib::group_seq_properties;

/// The first free address at or after `expected`, looking at the links from position `k`
/// on: the store hands out addresses from the start of its internal range and reuses
/// the lowest one that is free.
pub open spec fn first_gap(links: Seq<Link>, expected: int, k: int) -> int
    decreases links.len() - k,
{
    if k < 0 || k >= links.len() || links[k].index != expected {
        expected
    } else {
        first_gap(links, expected + 1, k + 1)
    }
}

/// In index order, with every index at least `start` and the links before position `k`
/// at `start`, `start + 1`, ..: the first gap is not below `expected`, every address
/// from `start` up to it is taken, and it is free.
proof fn lemma_first_gap(links: Seq<Link>, start: int, expected: int, k: int)
    requires
        sorted(links),
        0 <= k <= links.len(),
        expected == start + k,
        forall|j: int| 0 <= j < k ==> #[trigger] links[j].index == start + j,
        forall|j: int| 0 <= j < links.len() ==> #[trigger] links[j].index >= start,
    ensures
        first_gap(links, expected, k) >= expected,
        forall|a: u64| start <= a < first_gap(links, expected, k) ==> #[trigger] has_index(links, a),
        forall|j: int| 0 <= j < links.len() ==> #[trigger] links[j].index != first_gap(links, expected, k),
    decreases links.len() - k,
{
    if k >= links.len() || links[k].index != expected {
        assert forall|a: u64| start <= a < expected implies #[trigger] has_index(links, a) by {
            assert(links[a - start].index == a);
        }
        assert forall|j: int| 0 <= j < links.len() implies #[trigger] links[j].index != expected by {
            if j < k {
            } else if j > k {
                if k > 0 {
                    assert(links[k - 1].index < links[k].index);
                }
                assert(links[k].index < links[j].index);
            } else {
            }
        }
    } else {
        lemma_first_gap(links, start, expected + 1, k + 1);
    }
}

/// A links store held in memory.
///
/// Links are kept in index order. A new link takes the lowest free address of the
/// internal range, so addresses freed by deletion are reused.
pub struct Store {
    links: Vec<Link>,
    constants: LinksConstants,
}

impl Store {
    /// The store is well formed: its links are in index order with internal indices,
    /// and its internal range starts after the null address and ends before `u64::MAX`.
    pub closed spec fn wf(&self) -> bool {
        &&& store_ok(self.constants, self.links@)
        &&& self.constants.internal_range.start >= 1
        &&& self.constants.internal_range.end < u64::MAX
    }

    /// An empty store with the default constants.
    pub fn new() -> (r: Store)
        ensures
            r.inv(),
            r.view() == Seq::<Link>::empty(),
            r.constants_view() == LinksConstants::default_constants(),
            r.next_index() == 1,
            !r.is_full(),
    {
        Store { links: Vec::new(), constants: LinksConstants::new() }
    }

    /// An empty store with the given constants.
    pub fn with_constants(constants: LinksConstants) -> (r: Store)
        requires
            standard_parts(constants),
            constants.internal_range.start >= 1,
            constants.internal_range.end < u64::MAX,
        ensures
            r.inv(),
            r.view() == Seq::<Link>::empty(),
            r.constants_view() == constants,
            r.next_index() == constants.internal_range.start,
            r.is_full() <==> constants.internal_range.start > constants.internal_range.end,
    {
        Store { links: Vec::new(), constants }
    }

    /// A store that is not full hands out the lowest free address of its internal
    /// range: every address from the start of the range up to it is taken, and it is
    /// free and internal.
    pub proof fn lemma_lowest_free(&self)
        requires
            self.inv(),
            !self.is_full(),
        ensures
            self.constants_view().spec_is_internal(self.next_index()),
            !has_index(self.view(), self.next_index()),
            forall|a: u64|
                self.constants_view().internal_range.start <= a < self.next_index() ==> has_index(self.view(), a),
    {
        let start = self.constants.internal_range.start as int;
        lemma_first_gap(self.links@, start, start, 0);
    }

    /// The store is full exactly when it holds `MAX_LINKS` links or every address of its
    /// internal range is taken: only then does `create_links` fail.
    pub proof fn lemma_is_full(&self)
        requires
            self.inv(),
        ensures
            self.is_full() <==> (self.view().len() >= MAX_LINKS || forall|a: u64|
                self.constants_view().internal_range.start <= a <= self.constants_view().internal_range.end
                    ==> #[trigger] has_index(self.view(), a)),
    {
        let start = self.constants.internal_range.start as int;
        let end = self.constants.internal_range.end;
        lemma_first_gap(self.links@, start, start, 0);
        let g = first_gap(self.links@, start, 0);
        if self.links@.len() < MAX_LINKS && g <= end {
            let a = g as u64;
            if has_index(self.links@, a) {
                let j = choose|j: int| 0 <= j < self.links@.len() && self.links@[j].index == a;
                assert(self.links@[j].index != g);
            }
            assert(!has_index(self.view(), a));
        }
    }

    /// The position of the link with index `index`, if there is one.
    fn find(&self, index: u64) -> (r: Option<usize>)
        requires
            self.wf(),
        ensures
            match r {
                Some(p) => p < self.links@.len() && self.links@[p as int].index == index
                    && position(self.links@, index) == p && has_index(self.links@, index),
                None => !has_index(self.links@, index),
            },
    {
        let mut i: usize = 0;
        while i < self.links.len()
            invariant
                self.wf(),
                i <= self.links@.len(),
                forall|k: int| 0 <= k < i ==> self.links@[k].index != index,
            decreases self.links@.len() - i,
        {
            if self.links[i].index == index {
                proof {
                    lemma_sorted_position(self.links@, i as int);
                }
                return Some(i);
            }
            i = i + 1;
        }
        None
    }
}

impl Links for Store {
    closed spec fn view(&self) -> Seq<Link> {
        self.links@
    }

    closed spec fn constants_view(&self) -> LinksConstants {
        self.constants
    }

    closed spec fn inv(&self) -> bool {
        self.wf()
    }

    closed spec fn next_index(&self) -> u64 {
        first_gap(self.links@, self.constants.internal_range.start as int, 0) as u64
    }

    closed spec fn is_full(&self) -> bool {
        ||| self.links@.len() >= MAX_LINKS
        ||| first_gap(self.links@, self.constants.internal_range.start as int, 0) > self.constants.internal_range.end
    }

    proof fn lemma_inv(&self) {
    }

    open spec fn fills_lowest_free() -> bool {
        true
    }

    proof fn lemma_next_is_lowest_free(&self) {
        self.lemma_lowest_free();
    }

    fn constants(&self) -> (r: &LinksConstants) {
        &self.constants
    }

    fn count_links(&self, query: &[u64]) -> (r: u64) {
        let ghost c = self.constants;
        let ghost pred = query_pred(c, query@);
        let mut count: u64 = 0;
        let mut i: usize = 0;
        while i < self.links.len()
            invariant
                i <= self.links@.len(),
                self.links@.len() <= MAX_LINKS,
                c == self.constants,
                pred == query_pred(c, query@),
                count == self.links@.take(i as int).filter(pred).len(),
            decreases self.links@.len() - i,
        {
            let link = self.links[i];
            proof {
                assert(self.links@.take(i as int + 1) == self.links@.take(i as int).push(link));
                self.links@.take(i as int).lemma_filter_push(link, pred);
                self.links@.take(i as int).lemma_filter_len(pred);
            }
            if link_matches(&self.constants, &link, query) {
                count = count + 1;
            }
            i = i + 1;
        }
        proof {
            assert(self.links@.take(i as int) == self.links@);
        }
        count
    }

    fn each_links<H: ReadHandler>(&self, query: &[u64], handler: &mut H) -> (r: Flow) {
        let ghost c = self.constants;
        let ghost pred = query_pred(c, query@);
        let ghost start = handler.calls();
        proof {
            lemma_extends_refl(start);
        }
        let mut i: usize = 0;
        while i < self.links.len()
            invariant
                i <= self.links@.len(),
                c == self.constants,
                pred == query_pred(c, query@),
                start == (*old(handler)).calls(),
                extends(start, handler.calls()),
                added(start, handler.calls()).len() == self.links@.take(i as int).filter(pred).len(),
                forall|j: int|
                    0 <= j < added(start, handler.calls()).len() ==> (#[trigger] added(
                        start,
                        handler.calls(),
                    )[j]) == (self.links@.take(i as int).filter(pred)[j], Flow::Continue),
            decreases self.links@.len() - i,
        {
            let link = self.links[i];
            proof {
                assert(self.links@.take(i as int + 1) == self.links@.take(i as int).push(link));
                self.links@.take(i as int).lemma_filter_push(link, pred);
            }
            if link_matches(&self.constants, &link, query) {
                let ghost before = handler.calls();
                let flow = handler.handle(link);
                proof {
                    lemma_extends_push(start, before, (link, flow));
                }
                if flow.is_break() {
                    proof {
                        let m = self.links@.filter(pred);
                        let mi = self.links@.take(i as int + 1).filter(pred);
                        lemma_filter_prefix(self.links@, pred, i as int + 1);
                        let ext = added(start, handler.calls());
                        assert(mi == self.links@.take(i as int).filter(pred).push(link));
                        assert(ext.len() == mi.len());
                        assert forall|j: int| 0 <= j < ext.len() implies (#[trigger] ext[j]).0 == m[j] by {
                            assert(mi[j] == m[j]);
                            if j < ext.len() - 1 {
                                assert(ext[j] == added(start, before)[j]);
                            }
                        }
                        assert forall|j: int| 0 <= j < ext.len() - 1 implies (#[trigger] ext[j]).1 == Flow::Continue by {
                            assert(ext[j] == added(start, before)[j]);
                        }
                        assert(each_outcome(m, ext, Flow::Break));
                    }
                    return Flow::Break;
                }
            }
            i = i + 1;
        }
        proof {
            assert(self.links@.take(i as int) == self.links@);
        }
        Flow::Continue
    }

    fn create_links<H: WriteHandler>(&mut self, query: &[u64], handler: &mut H) -> (r: Result<Flow, Error>) {
        if self.links.len() as u64 >= MAX_LINKS {
            return Err(Error::AllocFailed(String::new()));
        }
        let start = self.constants.internal_range.start;
        let end = self.constants.internal_range.end;
        let mut expected: u64 = start;
        let mut pos: usize = 0;
        while pos < self.links.len() && self.links[pos].index == expected
            invariant
                self.wf(),
                start == self.constants.internal_range.start,
                end == self.constants.internal_range.end,
                pos <= self.links@.len(),
                expected == start + pos,
                forall|j: int| 0 <= j < pos ==> self.links@[j].index == start + j,
                first_gap(self.links@, expected as int, pos as int) == first_gap(
                    self.links@,
                    start as int,
                    0,
                ),
            decreases self.links@.len() - pos,
        {
            expected = expected + 1;
            pos = pos + 1;
        }
        if expected > end {
            return Err(Error::LimitReached(end));
        }
        let link = Link { index: expected, source: 0, target: 0 };
        proof {
            if pos < self.links@.len() {
                if pos > 0 {
                    assert(self.links@[pos as int - 1].index < self.links@[pos as int].index);
                }
                assert(self.links@[pos as int].index > expected);
            }
            assert forall|k: int| pos <= k < self.links@.len() implies (#[trigger] self.links@[k]).index
                > expected by {
                if k > pos {
                    assert(self.links@[pos as int].index < self.links@[k].index);
                }
            }
            assert(is_insert_point(self.links@, expected, pos as int));
            lemma_insert_at(self.links@, link, pos as int);
        }
        self.links.insert(pos, link);
        let flow = handler.handle(Link::nothing(), link);
        Ok(flow)
    }

    fn update_links<H: WriteHandler>(
        &mut self,
        query: &[u64],
        change: &[u64],
        handler: &mut H,
    ) -> (r: Result<Flow, Error>) {
        let index = part(query, self.constants.index_part);
        let source = part(change, self.constants.source_part);
        let target = part(change, self.constants.target_part);
        match self.find(index) {
            None => Err(Error::NotExists(index)),
            Some(p) => {
                let before = self.links[p];
                let after = Link { index, source, target };
                proof {
                    lemma_sorted_position(self.links@, p as int);
                    let s = self.links@.update(p as int, after);
                    assert forall|i: int, j: int| 0 <= i < j < s.len() implies s[i].index
                        < s[j].index by {
                        assert(self.links@[i].index < self.links@[j].index);
                    }
                }
                self.links.set(p, after);
                let flow = handler.handle(before, after);
                Ok(flow)
            },
        }
    }

    fn delete_links<H: WriteHandler>(&mut self, query: &[u64], handler: &mut H) -> (r: Result<Flow, Error>) {
        let index = part(query, self.constants.index_part);
        match self.find(index) {
            None => Err(Error::NotExists(index)),
            Some(p) => {
                let before = self.links[p];
                proof {
                    lemma_sorted_position(self.links@, p as int);
                    let s = self.links@.remove(p as int);
                    assert forall|i: int, j: int| 0 <= i < j < s.len() implies s[i].index
                        < s[j].index by {
                        if j < p {
                        } else if i < p {
                            assert(s[j] == self.links@[j + 1]);
                        } else {
                            assert(s[i] == self.links@[i + 1]);
                            assert(s[j] == self.links@[j + 1]);
                        }
                    }
                    assert forall|k: int| 0 <= k < s.len() implies self.constants.spec_is_internal(
                        #[trigger] s[k].index,
                    ) by {
                        if k < p {
                        } else {
                            assert(s[k] == self.links@[k + 1]);
                        }
                    }
                }
                self.links.remove(p);
                let flow = handler.handle(before, Link::nothing());
                Ok(flow)
            },
        }
    }
}

impl Doublets for Store {
    fn get_link(&self, index: u64) -> (r: Option<Link>) {
        match self.find(index) {
            Some(p) => {
                proof {
                    lemma_sorted_position(self.links@, p as int);
                }
                Some(self.links[p])
            },
            None => None,
        }
    }
}

/// `true` when `link` matches `query`.
pub fn link_matches(c: &LinksConstants, link: &Link, query: &[u64]) -> (r: bool)
    ensures
        r == query_matches(*c, *link, query@),
{
    let any = c.any;
    let n = query.len();
    if n == 0 {
        true
    } else if n == 1 {
        query[0] == any || query[0] == link.index
    } else if n == 2 {
        (query[0] == any || query[0] == link.index) && (query[1] == any || query[1] == link.source
            || query[1] == link.target)
    } else {
        (query[0] == any || query[0] == link.index) && (query[1] == any || query[1] == link.source)
            && (query[2] == any || query[2] == link.target)
    }
}

} // verus!
