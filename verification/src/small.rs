//! Links gathered into a small vector: a vector that holds its first two links inline.
use crate::data::Link;
use crate::model::MAX_LINKS;
use smallvec::SmallVec;
use vstd::prelude::*;

verus! {

/// A `SmallVec` of links that keeps two of them inline.
#[verifier::external_body]
pub struct SmallLinks {
    items: SmallVec<[Link; 2]>,
}

/// The links a small vector holds, in order.
pub uninterp spec fn small_links(v: SmallLinks) -> Seq<Link>;

/// `SmallVec::with_capacity`: an empty small vector with room for `n` links. Its
/// allocation of `n` links of 24 bytes stays below `isize::MAX` bytes, the limit past
/// which it panics, as long as `n` is at most `MAX_LINKS`.
#[verifier::external_body]
fn small_with_capacity(n: usize) -> (r: SmallLinks)
    requires
        n <= MAX_LINKS,
    ensures
        small_links(r) == Seq::<Link>::empty(),
{
    SmallLinks { items: SmallVec::with_capacity(n) }
}

/// `SmallVec::push`: appends `link` after the links held. It panics only when the
/// length would pass `usize::MAX`, which a count below `MAX_LINKS` rules out.
#[verifier::external_body]
fn small_push(v: &mut SmallLinks, link: Link)
    requires
        small_links(*old(v)).len() < MAX_LINKS,
    ensures
        small_links(*final(v)) == small_links(*old(v)).push(link),
{
    v.items.push(link)
}

/// `SmallVec::to_vec`: the links held, in order, in a vector.
#[verifier::external_body]
fn small_to_vec(v: &SmallLinks) -> (r: Vec<Link>)
    ensures
        r@ == small_links(*v),
{
    v.items.to_vec()
}

impl SmallLinks {
    /// The links held, in order.
    pub fn to_vec(&self) -> (r: Vec<Link>)
        ensures
            r@ == small_links(*self),
    {
        small_to_vec(self)
    }
}

/// The links of `links`, in order, in a small vector.
pub fn small_from(links: &Vec<Link>) -> (r: SmallLinks)
    requires
        links@.len() <= MAX_LINKS,
    ensures
        small_links(r) == links@,
{
    let mut out = small_with_capacity(links.len());
    let mut i: usize = 0;
    while i < links.len()
        invariant
            i <= links@.len(),
            links@.len() <= MAX_LINKS,
            small_links(out) == links@.take(i as int),
        decreases links@.len() - i,
    {
        small_push(&mut out, links[i]);
        i = i + 1;
        assert(small_links(out) =~= links@.take(i as int));
    }
    assert(links@.take(i as int) =~= links@);
    out
}

} // verus!
