//! Handlers: what a store calls back for every link it reads or writes.
//!
//! A handler reports each call it receives in `calls`, with the flow it answered; the
//! contracts of the stores speak of the calls a handler receives through that record.
use crate::data::Link;
use crate::platform::link::Flow;
use vstd::prelude::*;

verus! {

/// Called once for every link a read visits.
pub trait ReadHandler {
    /// The calls received so far: each link, with the flow that was answered.
    spec fn calls(&self) -> Seq<(Link, Flow)>;

    /// Receives one link and says whether the read should go on.
    fn handle(&mut self, link: Link) -> (r: Flow)
        ensures
            final(self).calls() == old(self).calls().push((link, r)),
    ;
}

/// Called once for every change a write makes: the link before and after it.
pub trait WriteHandler {
    /// The calls received so far: each `(before, after)` pair, with the flow answered.
    spec fn calls(&self) -> Seq<(Link, Link, Flow)>;

    /// Receives one change and answers a flow.
    fn handle(&mut self, before: Link, after: Link) -> (r: Flow)
        ensures
            final(self).calls() == old(self).calls().push((before, after, r)),
    ;
}

impl<'a, H: WriteHandler> WriteHandler for &'a mut H {
    open spec fn calls(&self) -> Seq<(Link, Link, Flow)> {
        (**self).calls()
    }

    fn handle(&mut self, before: Link, after: Link) -> (r: Flow) {
        (**self).handle(before, after)
    }
}

impl<'a, H: ReadHandler> ReadHandler for &'a mut H {
    open spec fn calls(&self) -> Seq<(Link, Flow)> {
        (**self).calls()
    }

    fn handle(&mut self, link: Link) -> (r: Flow) {
        (**self).handle(link)
    }
}

/// One call of `Fuse::call` with `(before, after)`, answering `r`, took `prev` to `next`:
/// a blown fuse answers `Break` and leaves the wrapped handler alone; otherwise the
/// wrapped handler receives the change, its answer is passed on, and the fuse blows
/// when that answer is `Break`.
pub open spec fn fuse_step<H: WriteHandler>(prev: Fuse<H>, before: Link, after: Link, r: Flow, next: Fuse<H>) -> bool {
    &&& prev.is_done() ==> {
        &&& r == Flow::Break
        &&& next.inner() == prev.inner()
        &&& next.is_done()
    }
    &&& !prev.is_done() ==> {
        &&& next.inner().calls() == prev.inner().calls().push((before, after, r))
        &&& next.is_done() == (r == Flow::Break)
    }
    &&& next.calls() == prev.calls().push((before, after, r))
}

/// Wraps a write handler so that once it has answered `Break` it is never called
/// again, and every later call answers `Break` at once.
pub struct Fuse<H: WriteHandler> {
    handler: H,
    done: bool,
    log: Ghost<Seq<(Link, Link, Flow)>>,
}

impl<H: WriteHandler> Fuse<H> {
    /// The wrapped handler.
    pub closed spec fn inner(&self) -> H {
        self.handler
    }

    /// `true` once the wrapped handler has answered `Break`.
    pub closed spec fn is_done(&self) -> bool {
        self.done
    }

    /// A fuse around `handler` that has not blown yet.
    pub fn new(handler: H) -> (r: Fuse<H>)
        ensures
            r.inner() == handler,
            !r.is_done(),
            r.calls() == Seq::<(Link, Link, Flow)>::empty(),
    {
        Fuse { handler, done: false, log: Ghost(Seq::empty()) }
    }

    /// Gives back the wrapped handler.
    pub fn into_inner(self) -> (r: H)
        ensures
            r == self.inner(),
    {
        self.handler
    }

    /// Passes the change to the wrapped handler unless it has already answered `Break`.
    pub fn call(&mut self, before: Link, after: Link) -> (r: Flow)
        ensures
            fuse_step(*old(self), before, after, r, *final(self)),
    {
        let r = if self.done {
            Flow::Break
        } else {
            let result = self.handler.handle(before, after);
            if result.is_break() {
                self.done = true;
                Flow::Break
            } else {
                Flow::Continue
            }
        };
        self.log = Ghost(self.log@.push((before, after, r)));
        r
    }
}

impl<H: WriteHandler> WriteHandler for Fuse<H> {
    closed spec fn calls(&self) -> Seq<(Link, Link, Flow)> {
        self.log@
    }

    fn handle(&mut self, before: Link, after: Link) -> (r: Flow) {
        self.call(before, after)
    }
}

/// A write handler that answers `Continue` to every change and keeps nothing.
pub struct Ignore {
    log: Ghost<Seq<(Link, Link, Flow)>>,
}

impl Ignore {
    pub fn new() -> (r: Ignore)
        ensures
            r.calls() == Seq::<(Link, Link, Flow)>::empty(),
    {
        Ignore { log: Ghost(Seq::empty()) }
    }
}

impl WriteHandler for Ignore {
    closed spec fn calls(&self) -> Seq<(Link, Link, Flow)> {
        self.log@
    }

    fn handle(&mut self, before: Link, after: Link) -> (r: Flow)
        ensures
            r == Flow::Continue,
    {
        self.log = Ghost(self.log@.push((before, after, Flow::Continue)));
        Flow::Continue
    }
}

/// A write handler that keeps the index of the last `after` link it received and
/// answers `Continue`.
pub struct Recorder {
    last: u64,
    log: Ghost<Seq<(Link, Link, Flow)>>,
}

impl Recorder {
    #[verifier::type_invariant]
    spec fn recorder_inv(self) -> bool {
        &&& self.log@.len() > 0 ==> self.last == self.log@.last().1.index
        &&& self.log@.len() == 0 ==> self.last == 0
    }

    pub fn new() -> (r: Recorder)
        ensures
            r.calls() == Seq::<(Link, Link, Flow)>::empty(),
    {
        Recorder { last: 0, log: Ghost(Seq::empty()) }
    }

    /// The index of the last `after` link received, or the null address if none was.
    pub fn last_index(&self) -> (r: u64)
        ensures
            self.calls().len() > 0 ==> r == self.calls().last().1.index,
            self.calls().len() == 0 ==> r == 0,
    {
        proof {
            use_type_invariant(self);
        }
        self.last
    }
}

impl WriteHandler for Recorder {
    closed spec fn calls(&self) -> Seq<(Link, Link, Flow)> {
        self.log@
    }

    fn handle(&mut self, before: Link, after: Link) -> (r: Flow) {
        let ghost log = self.log@.push((before, after, Flow::Continue));
        *self = Recorder { last: after.index, log: Ghost(log) };
        Flow::Continue
    }
}

/// A write handler that answers `Break` to every change: the stand-in for a handler
/// whose fuse has blown.
pub struct Blown {
    changes: Ghost<Seq<(Link, Link)>>,
}

impl Blown {
    /// The calls received: each change, answered `Break`.
    pub open spec fn answered(changes: Seq<(Link, Link)>) -> Seq<(Link, Link, Flow)> {
        changes.map_values(|c: (Link, Link)| (c.0, c.1, Flow::Break))
    }

    pub fn new() -> (r: Blown)
        ensures
            r.calls() == Seq::<(Link, Link, Flow)>::empty(),
            forall|i: int| 0 <= i < r.calls().len() ==> (#[trigger] r.calls()[i]).2 == Flow::Break,
    {
        let r = Blown { changes: Ghost(Seq::empty()) };
        assert(Blown::answered(r.changes@) =~= Seq::<(Link, Link, Flow)>::empty());
        r
    }

    /// Every call was answered `Break`.
    pub proof fn lemma_all_break(&self)
        ensures
            forall|i: int| 0 <= i < self.calls().len() ==> (#[trigger] self.calls()[i]).2 == Flow::Break,
    {
    }
}

impl WriteHandler for Blown {
    closed spec fn calls(&self) -> Seq<(Link, Link, Flow)> {
        Blown::answered(self.changes@)
    }

    fn handle(&mut self, before: Link, after: Link) -> (r: Flow)
        ensures
            r == Flow::Break,
    {
        let ghost old_changes = self.changes@;
        self.changes = Ghost(self.changes@.push((before, after)));
        assert(Blown::answered(self.changes@) =~= Blown::answered(old_changes).push((before, after, Flow::Break)));
        Flow::Break
    }
}

/// The links of a record of read calls.
pub open spec fn visited(calls: Seq<(Link, Flow)>) -> Seq<Link> {
    calls.map_values(|c: (Link, Flow)| c.0)
}

/// A read handler that collects every link it receives and answers `Continue`.
pub struct Collector {
    links: Vec<Link>,
}

impl Collector {
    /// The calls received: each collected link, answered `Continue`.
    pub closed spec fn received(&self) -> Seq<(Link, Flow)> {
        self.links@.map_values(|l: Link| (l, Flow::Continue))
    }

    pub fn new() -> (r: Collector)
        ensures
            r.calls() == Seq::<(Link, Flow)>::empty(),
    {
        let r = Collector { links: Vec::new() };
        assert(r.calls() =~= Seq::<(Link, Flow)>::empty());
        r
    }

    /// The links received, in order.
    pub fn into_links(self) -> (r: Vec<Link>)
        ensures
            r@ == visited(self.calls()),
            forall|i: int| 0 <= i < self.calls().len() ==> (#[trigger] self.calls()[i]).1 == Flow::Continue,
    {
        assert(self.links@ =~= visited(self.calls()));
        self.links
    }
}

impl ReadHandler for Collector {
    closed spec fn calls(&self) -> Seq<(Link, Flow)> {
        self.received()
    }

    fn handle(&mut self, link: Link) -> (r: Flow)
        ensures
            r == Flow::Continue,
    {
        let ghost before = self.received();
        self.links.push(link);
        assert(self.received() =~= before.push((link, Flow::Continue)));
        Flow::Continue
    }
}

/// A read handler that keeps the first link it receives and answers `Break`.
pub struct FirstFinder {
    found: Option<Link>,
    log: Ghost<Seq<(Link, Flow)>>,
}

impl FirstFinder {
    #[verifier::type_invariant]
    spec fn first_inv(self) -> bool {
        &&& self.log@.len() == 0 ==> self.found is None
        &&& self.log@.len() > 0 ==> self.found == Some(self.log@.last().0)
        &&& forall|i: int| 0 <= i < self.log@.len() ==> (#[trigger] self.log@[i]).1 == Flow::Break
    }

    pub fn new() -> (r: FirstFinder)
        ensures
            r.calls() == Seq::<(Link, Flow)>::empty(),
    {
        FirstFinder { found: None, log: Ghost(Seq::empty()) }
    }

    /// The last link received, if any.
    pub fn into_found(self) -> (r: Option<Link>)
        ensures
            self.calls().len() == 0 ==> r is None,
            self.calls().len() > 0 ==> r == Some(self.calls().last().0),
            forall|i: int| 0 <= i < self.calls().len() ==> (#[trigger] self.calls()[i]).1 == Flow::Break,
    {
        proof {
            use_type_invariant(&self);
        }
        self.found
    }
}

impl ReadHandler for FirstFinder {
    closed spec fn calls(&self) -> Seq<(Link, Flow)> {
        self.log@
    }

    fn handle(&mut self, link: Link) -> (r: Flow)
        ensures
            r == Flow::Break,
    {
        proof {
            use_type_invariant(&*self);
        }
        let ghost log = self.log@.push((link, Flow::Break));
        *self = FirstFinder { found: Some(link), log: Ghost(log) };
        Flow::Break
    }
}

/// What a `SingleFinder` holds after the links `links`: the first link while only one
/// was seen, nothing once a second one was.
pub open spec fn single_fold(links: Seq<Link>) -> Option<Link>
    decreases links.len(),
{
    if links.len() == 0 {
        None
    } else {
        match single_fold(links.drop_last()) {
            None => Some(links.last()),
            Some(_) => None,
        }
    }
}

/// A read handler that keeps a link while it has seen exactly one: the first call
/// is answered `Continue`, the second drops the link and answers `Break`.
pub struct SingleFinder {
    found: Option<Link>,
    log: Ghost<Seq<(Link, Flow)>>,
}

impl SingleFinder {
    #[verifier::type_invariant]
    spec fn single_inv(self) -> bool {
        &&& self.found == single_fold(visited(self.log@))
        &&& forall|i: int|
            0 <= i < self.log@.len() ==> (#[trigger] self.log@[i]).1 == (if single_fold(
                visited(self.log@.take(i)),
            ) is None {
                Flow::Continue
            } else {
                Flow::Break
            })
    }

    pub fn new() -> (r: SingleFinder)
        ensures
            r.calls() == Seq::<(Link, Flow)>::empty(),
    {
        let r = SingleFinder { found: None, log: Ghost(Seq::empty()) };
        assert(visited(r.log@) =~= Seq::<Link>::empty());
        r
    }

    /// The link held, if exactly one was seen since the last drop.
    pub fn into_found(self) -> (r: Option<Link>)
        ensures
            r == single_fold(visited(self.calls())),
            forall|i: int|
                0 <= i < self.calls().len() ==> (#[trigger] self.calls()[i]).1 == (if single_fold(
                    visited(self.calls().take(i)),
                ) is None {
                    Flow::Continue
                } else {
                    Flow::Break
                }),
    {
        proof {
            use_type_invariant(&self);
        }
        self.found
    }
}

impl ReadHandler for SingleFinder {
    closed spec fn calls(&self) -> Seq<(Link, Flow)> {
        self.log@
    }

    fn handle(&mut self, link: Link) -> (r: Flow) {
        proof {
            use_type_invariant(&*self);
        }
        let old_log = self.log;
        let (found, flow) = match self.found {
            None => (Some(link), Flow::Continue),
            Some(_) => (None, Flow::Break),
        };
        let ghost log = old_log@.push((link, flow));
        proof {
            assert(visited(log).drop_last() =~= visited(old_log@));
            assert(visited(log).last() == link);
            assert forall|i: int|
                0 <= i < log.len() implies (#[trigger] log[i]).1 == (if single_fold(
                    visited(log.take(i)),
                ) is None {
                    Flow::Continue
                } else {
                    Flow::Break
                }) by {
                if i < old_log@.len() {
                    assert(log.take(i) =~= old_log@.take(i));
                } else {
                    assert(log.take(i) =~= old_log@);
                }
            }
        }
        *self = SingleFinder { found, log: Ghost(log) };
        flow
    }
}

/// The answer a `Scripted` handler gives to its `i`-th call: the `i`-th planned answer,
/// or `Continue` once the plan has run out.
pub open spec fn scripted_answer(plan: Seq<Flow>, i: int) -> Flow {
    if 0 <= i < plan.len() {
        plan[i]
    } else {
        Flow::Continue
    }
}

/// A write handler that keeps every change it receives and answers from a plan given
/// up front: the `i`-th change gets the `i`-th planned flow, and `Continue` once the
/// plan has run out.
pub struct Scripted {
    seen: Vec<(Link, Link)>,
    plan: Vec<Flow>,
}

impl Scripted {
    /// The changes received so far, in order.
    pub closed spec fn changes(&self) -> Seq<(Link, Link)> {
        self.seen@
    }

    /// The planned answers.
    pub closed spec fn plan(&self) -> Seq<Flow> {
        self.plan@
    }

    /// Each change received, with the answer it got.
    pub closed spec fn answered(&self) -> Seq<(Link, Link, Flow)> {
        Seq::new(
            self.seen@.len(),
            |i: int| (self.seen@[i].0, self.seen@[i].1, scripted_answer(self.plan@, i)),
        )
    }

    /// A handler that answers the flows of `plan`, in order, then `Continue`.
    pub fn new(plan: Vec<Flow>) -> (r: Scripted)
        ensures
            r.calls() == Seq::<(Link, Link, Flow)>::empty(),
            r.plan() == plan@,
    {
        let r = Scripted { seen: Vec::new(), plan };
        assert(r.calls() =~= Seq::<(Link, Link, Flow)>::empty());
        r
    }

    /// A handler that answers `Continue` to every change.
    pub fn recording() -> (r: Scripted)
        ensures
            r.calls() == Seq::<(Link, Link, Flow)>::empty(),
            r.plan() == Seq::<Flow>::empty(),
    {
        Scripted::new(Vec::new())
    }

    /// The changes received so far, in order.
    pub fn seen(&self) -> (r: Vec<(Link, Link)>)
        ensures
            r@ == self.changes(),
            r@.len() == self.calls().len(),
    {
        let mut out: Vec<(Link, Link)> = Vec::new();
        let mut i: usize = 0;
        while i < self.seen.len()
            invariant
                i <= self.seen.len(),
                out@ == self.seen@.take(i as int),
            decreases self.seen.len() - i,
        {
            out.push(self.seen[i]);
            i = i + 1;
            assert(out@ =~= self.seen@.take(i as int));
        }
        assert(self.seen@.take(i as int) =~= self.seen@);
        out
    }
}

impl WriteHandler for Scripted {
    closed spec fn calls(&self) -> Seq<(Link, Link, Flow)> {
        self.answered()
    }

    fn handle(&mut self, before: Link, after: Link) -> (r: Flow)
        ensures
            r == scripted_answer(old(self).plan(), old(self).changes().len() as int),
            final(self).changes() == old(self).changes().push((before, after)),
            final(self).plan() == old(self).plan(),
    {
        let ghost old_calls = self.answered();
        let i = self.seen.len();
        let r = if i < self.plan.len() {
            self.plan[i]
        } else {
            Flow::Continue
        };
        self.seen.push((before, after));
        assert(self.answered() =~= old_calls.push((before, after, r)));
        r
    }
}

/// A read handler that collects the links it receives and answers `Break` from the
/// `limit`-th link on.
pub struct Limited {
    links: Vec<Link>,
    limit: usize,
}

impl Limited {
    /// The links received so far, in order.
    pub closed spec fn received(&self) -> Seq<Link> {
        self.links@
    }

    /// The number of links after which the handler answers `Break`.
    pub closed spec fn limit(&self) -> nat {
        self.limit as nat
    }

    /// Each link received, with the answer it got.
    pub closed spec fn answered(&self) -> Seq<(Link, Flow)> {
        Seq::new(
            self.links@.len(),
            |i: int| (self.links@[i], if i + 1 >= self.limit { Flow::Break } else { Flow::Continue }),
        )
    }

    /// A handler that answers `Break` to the `limit`-th link it receives.
    pub fn new(limit: usize) -> (r: Limited)
        ensures
            r.calls() == Seq::<(Link, Flow)>::empty(),
            r.limit() == limit,
    {
        let r = Limited { links: Vec::new(), limit };
        assert(r.calls() =~= Seq::<(Link, Flow)>::empty());
        r
    }

    /// The links received so far, in order.
    pub fn seen(&self) -> (r: Vec<Link>)
        ensures
            r@ == visited(self.calls()),
    {
        let mut out: Vec<Link> = Vec::new();
        let mut i: usize = 0;
        while i < self.links.len()
            invariant
                i <= self.links.len(),
                out@ == self.links@.take(i as int),
            decreases self.links.len() - i,
        {
            out.push(self.links[i]);
            i = i + 1;
            assert(out@ =~= self.links@.take(i as int));
        }
        assert(self.links@.take(i as int) =~= self.links@);
        assert(visited(self.calls()) =~= self.links@);
        out
    }
}

impl ReadHandler for Limited {
    closed spec fn calls(&self) -> Seq<(Link, Flow)> {
        self.answered()
    }

    fn handle(&mut self, link: Link) -> (r: Flow)
        ensures
            r == (if old(self).received().len() + 1 >= old(self).limit() { Flow::Break } else { Flow::Continue }),
            final(self).received() == old(self).received().push(link),
            final(self).limit() == old(self).limit(),
    {
        let ghost old_calls = self.answered();
        self.links.push(link);
        let r = if self.links.len() >= self.limit {
            Flow::Break
        } else {
            Flow::Continue
        };
        assert(self.answered() =~= old_calls.push((link, r)));
        r
    }
}

/// A read handler that asks a function what to do with each link it receives.
pub struct ReadFn<F: Fn(Link) -> Flow> {
    f: F,
    log: Ghost<Seq<(Link, Flow)>>,
}

impl<F: Fn(Link) -> Flow> ReadFn<F> {
    #[verifier::type_invariant]
    spec fn callable(self) -> bool {
        forall|l: Link| call_requires(self.f, (l,))
    }

    /// The function asked.
    pub closed spec fn function(&self) -> F {
        self.f
    }

    /// A handler that answers each link with what `f` returns for it.
    pub fn new(f: F) -> (r: ReadFn<F>)
        requires
            forall|l: Link| call_requires(f, (l,)),
        ensures
            r.calls() == Seq::<(Link, Flow)>::empty(),
            r.function() == f,
    {
        ReadFn { f, log: Ghost(Seq::empty()) }
    }

    /// Gives back the function.
    pub fn into_inner(self) -> (r: F)
        ensures
            r == self.function(),
    {
        self.f
    }
}

impl<F: Fn(Link) -> Flow> ReadHandler for ReadFn<F> {
    closed spec fn calls(&self) -> Seq<(Link, Flow)> {
        self.log@
    }

    fn handle(&mut self, link: Link) -> (r: Flow)
        ensures
            call_ensures(old(self).function(), (link,), r),
            final(self).function() == old(self).function(),
    {
        proof {
            use_type_invariant(&*self);
        }
        let r = (self.f)(link);
        self.log = Ghost(self.log@.push((link, r)));
        r
    }
}

/// A write handler that asks a function what to answer to each change it receives.
pub struct WriteFn<F: Fn(Link, Link) -> Flow> {
    f: F,
    log: Ghost<Seq<(Link, Link, Flow)>>,
}

impl<F: Fn(Link, Link) -> Flow> WriteFn<F> {
    #[verifier::type_invariant]
    spec fn callable(self) -> bool {
        forall|before: Link, after: Link| call_requires(self.f, (before, after))
    }

    /// The function asked.
    pub closed spec fn function(&self) -> F {
        self.f
    }

    /// A handler that answers each change `(before, after)` with what `f` returns for it.
    pub fn new(f: F) -> (r: WriteFn<F>)
        requires
            forall|before: Link, after: Link| call_requires(f, (before, after)),
        ensures
            r.calls() == Seq::<(Link, Link, Flow)>::empty(),
            r.function() == f,
    {
        WriteFn { f, log: Ghost(Seq::empty()) }
    }

    /// Gives back the function.
    pub fn into_inner(self) -> (r: F)
        ensures
            r == self.function(),
    {
        self.f
    }
}

impl<F: Fn(Link, Link) -> Flow> WriteHandler for WriteFn<F> {
    closed spec fn calls(&self) -> Seq<(Link, Link, Flow)> {
        self.log@
    }

    fn handle(&mut self, before: Link, after: Link) -> (r: Flow)
        ensures
            call_ensures(old(self).function(), (before, after), r),
            final(self).function() == old(self).function(),
    {
        proof {
            use_type_invariant(&*self);
        }
        let r = (self.f)(before, after);
        self.log = Ghost(self.log@.push((before, after, r)));
        r
    }
}

} // verus!
