//! An in-memory doublets store with the restriction/substitution interface.
//!
//! The store keeps `[index, source, target]` triples in the order they were created
//! and hands out indices from a counter. A restriction selects links by its length:
//! one value is an index, two are a source and a target, three are a whole link.
use crate::data::Link;
use vstd::prelude::*;

verus! {

/// A value that can serve as a link address.
pub trait LinkAddress: Copy + Clone {}

impl LinkAddress for u64 {}

impl LinkAddress for usize {}

/// A link as the slice `[index, source, target]`.
pub open spec fn triple(link: Link) -> Seq<u64> {
    seq![link.index, link.source, link.target]
}

/// Whether `link` is selected by `restriction`: one value selects by index, two by
/// source and target, three by the whole link; any other length selects nothing.
pub open spec fn restricts(link: Link, restriction: Seq<u64>) -> bool {
    if restriction.len() == 1 {
        link.index == restriction[0]
    } else if restriction.len() == 2 {
        link.source == restriction[0] && link.target == restriction[1]
    } else if restriction.len() == 3 {
        link.index == restriction[0] && link.source == restriction[1] && link.target == restriction[2]
    } else {
        false
    }
}

/// `restricts` as a predicate over links.
pub open spec fn restriction_pred(restriction: Seq<u64>) -> spec_fn(Link) -> bool {
    |link: Link| restricts(link, restriction)
}

/// The links that an optional restriction selects for reading: all of them when there
/// is none or it is empty.
pub open spec fn selected(links: Seq<Link>, restriction: Option<Seq<u64>>) -> Seq<Link> {
    match restriction {
        None => links,
        Some(r) => if r.len() == 0 { links } else { links.filter(restriction_pred(r)) },
    }
}

/// The values of an optional query slice.
pub open spec fn query_view(query: Option<&[u64]>) -> Option<Seq<u64>> {
    match query {
        Some(q) => Some(q@),
        None => None,
    }
}

/// A link after an update with `substitution`: two values replace source and target,
/// three replace the whole link, any other length leaves it as it is.
pub open spec fn substituted(link: Link, substitution: Seq<u64>) -> Link {
    if substitution.len() == 2 {
        Link { index: link.index, source: substitution[0], target: substitution[1] }
    } else if substitution.len() == 3 {
        Link { index: substitution[0], source: substitution[1], target: substitution[2] }
    } else {
        link
    }
}

/// The link that `create` adds with index `id`: two values give its source and
/// target, one value gives both, anything else (or nothing) leaves them null.
pub open spec fn created(id: u64, substitution: Option<Seq<u64>>) -> Link {
    match substitution {
        Some(s) => if s.len() == 2 {
            Link { index: id, source: s[0], target: s[1] }
        } else if s.len() == 1 {
            Link { index: id, source: s[0], target: s[0] }
        } else {
            Link { index: id, source: 0, target: 0 }
        },
        None => Link { index: id, source: 0, target: 0 },
    }
}

/// The handler answered `answer` when called with (a slice holding) `link`.
pub open spec fn answered<F: Fn(&[u64]) -> bool>(handler: F, link: Link, answer: bool) -> bool {
    exists|s: &[u64]| s@ == triple(link) && #[trigger] call_ensures(handler, (s,), answer)
}

/// The write handler was called with a slice holding `before` and one holding `after`.
pub open spec fn reported<F: Fn(&[u64], &[u64]) -> u64>(handler: F, before: Seq<u64>, after: Seq<u64>) -> bool {
    exists|a: &[u64], b: &[u64], out: u64| a@ == before && b@ == after && #[trigger] call_ensures(handler, (a, b), out)
}

/// An in-memory store of link triples.
pub struct MemoryDoublets {
    links: Vec<Link>,
    next_id: u64,
}

impl MemoryDoublets {
    /// The stored links, in the order they were created.
    pub closed spec fn stored(&self) -> Seq<Link> {
        self.links@
    }

    /// The index the next `create` gives.
    pub closed spec fn next(&self) -> u64 {
        self.next_id
    }

    /// An empty store whose first link gets index 1.
    pub fn new() -> (r: MemoryDoublets)
        ensures
            r.stored() == Seq::<Link>::empty(),
            r.next() == 1,
    {
        MemoryDoublets { links: Vec::new(), next_id: 1 }
    }

    /// The number of links the restriction selects: all of them when there is none or
    /// it is empty.
    pub fn count(&self, restriction: Option<&[u64]>) -> (r: u64)
        ensures
            r == (match restriction {
                None => self.stored().len(),
                Some(q) => if q@.len() == 0 {
                    self.stored().len()
                } else {
                    self.stored().filter(restriction_pred(q@)).len()
                },
            }),
    {
        let ghost all = self.links@;
        match restriction {
            None => self.links.len() as u64,
            Some(q) => {
                if q.len() == 0 {
                    return self.links.len() as u64;
                }
                let ghost pred = restriction_pred(q@);
                let mut count: u64 = 0;
                let mut i: usize = 0;
                while i < self.links.len()
                    invariant
                        i <= all.len(),
                        all == self.links@,
                        pred == restriction_pred(q@),
                        count == all.take(i as int).filter(pred).len(),
                        count <= i,
                    decreases all.len() - i,
                {
                    let link = self.links[i];
                    proof {
                        assert(all.take(i as int + 1) == all.take(i as int).push(link));
                        all.take(i as int).lemma_filter_push(link, pred);
                    }
                    if link_restricted(&link, q) {
                        count = count + 1;
                    }
                    i = i + 1;
                }
                proof {
                    assert(all.take(i as int) == all);
                }
                count
            },
        }
    }

    /// Calls the handler, if any, with each selected link in order, and stops when it
    /// answers `false`; returns how many links were processed: those for which it
    /// answered `true` (all selected links when there is no handler).
    pub fn each<F: Fn(&[u64]) -> bool>(&self, restriction: Option<&[u64]>, handler: Option<&F>) -> (r: u64)
        requires
            match handler {
                Some(h) => forall|s: &[u64]| #[trigger] call_requires(*h, (s,)),
                None => true,
            },
        ensures
            ({
                let m = selected(self.stored(), query_view(restriction));
                &&& r <= m.len()
                &&& match handler {
                    None => r == m.len(),
                    Some(h) => {
                        &&& forall|i: int| 0 <= i < r ==> answered(*h, #[trigger] m[i], true)
                        &&& r < m.len() ==> answered(*h, m[r as int], false)
                    },
                }
            }),
    {
        let ghost all = self.links@;
        let ghost m = selected(all, query_view(restriction));
        let ghost pred = match restriction { Some(q) => restriction_pred(q@), None => |l: Link| true };
        let ghost filtering = match restriction { Some(q) => q@.len() != 0, None => false };
        let mut processed: u64 = 0;
        let mut i: usize = 0;
        while i < self.links.len()
            invariant
                i <= all.len(),
                all == self.links@,
                m == selected(all, query_view(restriction)),
                filtering == (match restriction { Some(q) => q@.len() != 0, None => false }),
                filtering ==> pred == restriction_pred(restriction->0@) && m == all.filter(pred),
                !filtering ==> m == all,
                processed == (if filtering { all.take(i as int).filter(pred).len() } else { i as nat }),
                processed <= i,
                match handler {
                    Some(h) => forall|s: &[u64]| #[trigger] call_requires(*h, (s,)),
                    None => true,
                },
                match handler {
                    Some(h) => forall|j: int| 0 <= j < processed ==> answered(*h, #[trigger] m[j], true),
                    None => true,
                },
            decreases all.len() - i,
        {
            let link = self.links[i];
            proof {
                assert(all.take(i as int + 1) == all.take(i as int).push(link));
                if filtering {
                    all.take(i as int).lemma_filter_push(link, pred);
                    crate::model::lemma_filter_prefix(all, pred, i as int + 1);
                }
            }
            let should_process = match restriction {
                Some(q) => if q.len() == 0 { true } else { link_restricted(&link, q) },
                None => true,
            };
            if should_process {
                match handler {
                    Some(h) => {
                        let triple_value = [link.index, link.source, link.target];
                        let answer = h(triple_value.as_slice());
                        proof {
                            assert(triple_value@ =~= triple(link));
                            if filtering {
                                assert(pred(link));
                                assert(all.take(i as int + 1).filter(pred) == all.take(i as int).filter(pred).push(link));
                                assert(all.take(i as int + 1).filter(pred)[processed as int] == link);
                                assert(m[processed as int] == link);
                            } else {
                                assert(m[processed as int] == link);
                            }
                            assert(answered(*h, m[processed as int], answer));
                        }
                        if !answer {
                            return processed;
                        }
                    },
                    None => {},
                }
                processed = processed + 1;
            }
            i = i + 1;
        }
        proof {
            assert(all.take(i as int) == all);
        }
        processed
    }

    /// Adds a link with the next index (see `created`), reports it to the handler as
    /// `([], link)`, and returns its index. The counter wraps at `u64::MAX`.
    pub fn create<F: Fn(&[u64], &[u64]) -> u64>(&mut self, substitution: Option<&[u64]>, handler: Option<&F>) -> (r: u64)
        requires
            match handler {
                Some(h) => forall|a: &[u64], b: &[u64]| #[trigger] call_requires(*h, (a, b)),
                None => true,
            },
        ensures
            r == old(self).next(),
            final(self).next() == (if old(self).next() == u64::MAX { 0 } else { (old(self).next() + 1) as u64 }),
            final(self).stored() == old(self).stored().push(
                created(r, match substitution { Some(s) => Some(s@), None => None }),
            ),
            match handler {
                Some(h) => reported(*h, Seq::empty(), triple(created(r, match substitution { Some(s) => Some(s@), None => None }))),
                None => true,
            },
    {
        let id = self.next_id;
        self.next_id = self.next_id.wrapping_add(1);
        let new_link = match substitution {
            Some(sub) => {
                if sub.len() == 2 {
                    Link { index: id, source: sub[0], target: sub[1] }
                } else if sub.len() == 1 {
                    Link { index: id, source: sub[0], target: sub[0] }
                } else {
                    Link { index: id, source: 0, target: 0 }
                }
            },
            None => Link { index: id, source: 0, target: 0 },
        };
        match handler {
            Some(h) => {
                let before: [u64; 0] = [];
                let after = [new_link.index, new_link.source, new_link.target];
                let a = before.as_slice();
                let b = after.as_slice();
                let out = h(a, b);
                proof {
                    assert(a@ =~= Seq::<u64>::empty());
                    assert(b@ =~= triple(new_link));
                    assert(call_ensures(*h, (a, b), out));
                }
            },
            None => {},
        }
        self.links.push(new_link);
        id
    }

    /// Applies the substitution (see `substituted`) to every link the restriction
    /// selects, reporting each as `(before, after)`; returns how many were updated.
    /// Nothing changes without both a restriction and a substitution.
    pub fn update<F: Fn(&[u64], &[u64]) -> u64>(
        &mut self,
        restriction: Option<&[u64]>,
        substitution: Option<&[u64]>,
        handler: Option<&F>,
    ) -> (r: u64)
        requires
            match handler {
                Some(h) => forall|a: &[u64], b: &[u64]| #[trigger] call_requires(*h, (a, b)),
                None => true,
            },
        ensures
            final(self).next() == old(self).next(),
            match (restriction, substitution) {
                (Some(q), Some(s)) => {
                    &&& final(self).stored() == old(self).stored().map_values(
                        |l: Link| if restricts(l, q@) { substituted(l, s@) } else { l },
                    )
                    &&& r == old(self).stored().filter(restriction_pred(q@)).len()
                    &&& match handler {
                        Some(h) => forall|j: int|
                            0 <= j < old(self).stored().len() && #[trigger] restricts(old(self).stored()[j], q@) ==> reported(
                                *h,
                                triple(old(self).stored()[j]),
                                triple(substituted(old(self).stored()[j], s@)),
                            ),
                        None => true,
                    }
                },
                _ => final(self).stored() == old(self).stored() && r == 0,
            },
    {
        let ghost all = self.links@;
        let mut updated: u64 = 0;
        match (restriction, substitution) {
            (Some(q), Some(s)) => {
                let ghost pred = restriction_pred(q@);
                let ghost f = |l: Link| if restricts(l, q@) { substituted(l, s@) } else { l };
                let mut i: usize = 0;
                while i < self.links.len()
                    invariant
                        i <= all.len(),
                        self.links@.len() == all.len(),
                        self.next_id == old(self).next_id,
                        all == old(self).links@,
                        pred == restriction_pred(q@),
                        f == (|l: Link| if restricts(l, q@) { substituted(l, s@) } else { l }),
                        forall|j: int| 0 <= j < i ==> #[trigger] self.links@[j] == f(all[j]),
                        forall|j: int| i <= j < all.len() ==> #[trigger] self.links@[j] == all[j],
                        updated == all.take(i as int).filter(pred).len(),
                        updated <= i,
                        match handler {
                            Some(h) => forall|a: &[u64], b: &[u64]| #[trigger] call_requires(*h, (a, b)),
                            None => true,
                        },
                        match handler {
                            Some(h) => forall|j: int|
                                0 <= j < i && #[trigger] restricts(all[j], q@) ==> reported(*h, triple(all[j]), triple(substituted(all[j], s@))),
                            None => true,
                        },
                    decreases all.len() - i,
                {
                    let link = self.links[i];
                    proof {
                        assert(all.take(i as int + 1) == all.take(i as int).push(link));
                        all.take(i as int).lemma_filter_push(link, pred);
                    }
                    if link_restricted(&link, q) {
                        let new_link = if s.len() == 2 {
                            Link { index: link.index, source: s[0], target: s[1] }
                        } else if s.len() == 3 {
                            Link { index: s[0], source: s[1], target: s[2] }
                        } else {
                            link
                        };
                        self.links.set(i, new_link);
                        match handler {
                            Some(h) => {
                                let before = [link.index, link.source, link.target];
                                let after = [new_link.index, new_link.source, new_link.target];
                                let a = before.as_slice();
                                let b = after.as_slice();
                                let out = h(a, b);
                                proof {
                                    assert(a@ =~= triple(link));
                                    assert(b@ =~= triple(substituted(link, s@)));
                                    assert(call_ensures(*h, (a, b), out));
                                    assert(reported(*h, triple(all[i as int]), triple(substituted(all[i as int], s@))));
                                }
                            },
                            None => {},
                        }
                        updated = updated + 1;
                    }
                    i = i + 1;
                }
                proof {
                    assert(all.take(i as int) == all);
                    assert(self.links@ =~= all.map_values(f));
                }
            },
            _ => {},
        }
        updated
    }

    /// Removes every link the restriction selects, reporting each as `(link, [])`;
    /// returns how many were removed. Nothing changes without a restriction.
    pub fn delete<F: Fn(&[u64], &[u64]) -> u64>(&mut self, restriction: Option<&[u64]>, handler: Option<&F>) -> (r: u64)
        requires
            match handler {
                Some(h) => forall|a: &[u64], b: &[u64]| #[trigger] call_requires(*h, (a, b)),
                None => true,
            },
        ensures
            final(self).next() == old(self).next(),
            match restriction {
                Some(q) => {
                    &&& final(self).stored() == old(self).stored().filter(|l: Link| !restricts(l, q@))
                    &&& r == old(self).stored().filter(restriction_pred(q@)).len()
                    &&& match handler {
                        Some(h) => forall|j: int|
                            0 <= j < old(self).stored().len() && #[trigger] restricts(old(self).stored()[j], q@) ==> reported(
                                *h,
                                triple(old(self).stored()[j]),
                                Seq::empty(),
                            ),
                        None => true,
                    }
                },
                None => final(self).stored() == old(self).stored() && r == 0,
            },
    {
        let ghost all = self.links@;
        match restriction {
            Some(q) => {
                let ghost pred = restriction_pred(q@);
                let ghost keep = |l: Link| !restricts(l, q@);
                let mut kept: Vec<Link> = Vec::new();
                let mut deleted: u64 = 0;
                let mut i: usize = 0;
                while i < self.links.len()
                    invariant
                        i <= all.len(),
                        all == self.links@,
                        pred == restriction_pred(q@),
                        keep == (|l: Link| !restricts(l, q@)),
                        kept@ == all.take(i as int).filter(keep),
                        deleted == all.take(i as int).filter(pred).len(),
                        deleted <= i,
                        match handler {
                            Some(h) => forall|a: &[u64], b: &[u64]| #[trigger] call_requires(*h, (a, b)),
                            None => true,
                        },
                        match handler {
                            Some(h) => forall|j: int|
                                0 <= j < i && #[trigger] restricts(all[j], q@) ==> reported(*h, triple(all[j]), Seq::empty()),
                            None => true,
                        },
                    decreases all.len() - i,
                {
                    let link = self.links[i];
                    proof {
                        assert(all.take(i as int + 1) == all.take(i as int).push(link));
                        all.take(i as int).lemma_filter_push(link, pred);
                        all.take(i as int).lemma_filter_push(link, keep);
                    }
                    if link_restricted(&link, q) {
                        match handler {
                            Some(h) => {
                                let before = [link.index, link.source, link.target];
                                let after: [u64; 0] = [];
                                let a = before.as_slice();
                                let b = after.as_slice();
                                let out = h(a, b);
                                proof {
                                    assert(a@ =~= triple(link));
                                    assert(b@ =~= Seq::<u64>::empty());
                                    assert(call_ensures(*h, (a, b), out));
                                    assert(reported(*h, triple(all[i as int]), Seq::empty()));
                                }
                            },
                            None => {},
                        }
                        deleted = deleted + 1;
                    } else {
                        kept.push(link);
                    }
                    i = i + 1;
                }
                proof {
                    assert(all.take(i as int) == all);
                }
                self.links = kept;
                deleted
            },
            None => 0,
        }
    }
}

/// `true` when `restriction` selects `link`.
fn link_restricted(link: &Link, restriction: &[u64]) -> (r: bool)
    ensures
        r == restricts(*link, restriction@),
{
    let n = restriction.len();
    if n == 1 {
        link.index == restriction[0]
    } else if n == 2 {
        link.source == restriction[0] && link.target == restriction[1]
    } else if n == 3 {
        link.index == restriction[0] && link.source == restriction[1] && link.target == restriction[2]
    } else {
        false
    }
}

} // verus!
