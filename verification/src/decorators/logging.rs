//! The text of a log line for every change: each link written as `(index: source->target)`,
//! or `(source->target)` when its index is null.
use crate::data::Link;
use crate::handler::{fuse_step, Fuse, WriteHandler};
use crate::platform::link::Flow;
use vstd::prelude::*;

verus! {

/// The decimal digit `d`.
pub open spec fn digit(d: nat) -> char {
    if d == 0 {
        '0'
    } else if d == 1 {
        '1'
    } else if d == 2 {
        '2'
    } else if d == 3 {
        '3'
    } else if d == 4 {
        '4'
    } else if d == 5 {
        '5'
    } else if d == 6 {
        '6'
    } else if d == 7 {
        '7'
    } else if d == 8 {
        '8'
    } else {
        '9'
    }
}

/// `n` written in decimal, without leading zeros.
pub open spec fn decimal(n: nat) -> Seq<char>
    decreases n,
{
    if n < 10 {
        seq![digit(n)]
    } else {
        decimal(n / 10) + seq![digit(n % 10)]
    }
}

/// A link as text: `(index: source->target)`, or `(source->target)` for a null index.
pub open spec fn link_text(link: Link) -> Seq<char> {
    if link.index == 0 {
        seq!['('] + decimal(link.source as nat) + seq!['-', '>'] + decimal(link.target as nat) + seq![')']
    } else {
        seq!['('] + decimal(link.index as nat) + seq![':', ' '] + decimal(link.source as nat) + seq!['-', '>']
            + decimal(link.target as nat) + seq![')']
    }
}

/// The kind of change a log line records.
#[derive(Debug, Clone, Copy, PartialEq, Eq, Structural)]
pub enum Mutation {
    Create,
    Update,
    Delete,
}

/// The name of a change: `Create`, `Update` or `Delete`.
pub open spec fn mutation_name(m: Mutation) -> Seq<char> {
    match m {
        Mutation::Create => seq!['C', 'r', 'e', 'a', 't', 'e'],
        Mutation::Update => seq!['U', 'p', 'd', 'a', 't', 'e'],
        Mutation::Delete => seq!['D', 'e', 'l', 'e', 't', 'e'],
    }
}

/// The log line of one change: `<name>. Before: <link>. After: <link>`.
pub open spec fn line_text(m: Mutation, before: Link, after: Link) -> Seq<char> {
    mutation_name(m) + seq!['.', ' ', 'B', 'e', 'f', 'o', 'r', 'e', ':', ' '] + link_text(before) + seq![
        '.',
        ' ',
        'A',
        'f',
        't',
        'e',
        'r',
        ':',
        ' ',
    ] + link_text(after)
}

/// Appends the decimal digit `d`.
fn push_digit(s: &mut String, d: u64)
    requires
        d < 10,
    ensures
        final(s)@ == old(s)@ + seq![digit(d as nat)],
{
    if d == 0 {
        proof { reveal_strlit("0"); }
        s.append("0");
    } else if d == 1 {
        proof { reveal_strlit("1"); }
        s.append("1");
    } else if d == 2 {
        proof { reveal_strlit("2"); }
        s.append("2");
    } else if d == 3 {
        proof { reveal_strlit("3"); }
        s.append("3");
    } else if d == 4 {
        proof { reveal_strlit("4"); }
        s.append("4");
    } else if d == 5 {
        proof { reveal_strlit("5"); }
        s.append("5");
    } else if d == 6 {
        proof { reveal_strlit("6"); }
        s.append("6");
    } else if d == 7 {
        proof { reveal_strlit("7"); }
        s.append("7");
    } else if d == 8 {
        proof { reveal_strlit("8"); }
        s.append("8");
    } else {
        proof { reveal_strlit("9"); }
        s.append("9");
    }
}

/// Appends `n` in decimal.
pub(crate) fn push_decimal(s: &mut String, n: u64)
    ensures
        final(s)@ == old(s)@ + decimal(n as nat),
    decreases n,
{
    if n >= 10 {
        push_decimal(s, n / 10);
    }
    push_digit(s, n % 10);
    proof {
        assert(old(s)@ + decimal(n as nat) =~= if n >= 10 {
            old(s)@ + decimal((n / 10) as nat) + seq![digit((n % 10) as nat)]
        } else {
            old(s)@ + seq![digit((n % 10) as nat)]
        });
    }
}

/// Appends `link` as text.
fn push_link(s: &mut String, link: &Link)
    ensures
        final(s)@ == old(s)@ + link_text(*link),
{
    proof {
        reveal_strlit("(");
        reveal_strlit(": ");
        reveal_strlit("->");
        reveal_strlit(")");
    }
    s.append("(");
    if link.index != 0 {
        push_decimal(s, link.index);
        s.append(": ");
    }
    push_decimal(s, link.source);
    s.append("->");
    push_decimal(s, link.target);
    s.append(")");
    proof {
        assert(final(s)@ =~= old(s)@ + link_text(*link)) by {
            if link.index == 0 {
                assert(link_text(*link) =~= seq!['('] + decimal(link.source as nat) + seq!['-', '>'] + decimal(link.target as nat) + seq![')']);
            }
        }
    }
}

/// A link as text: `(index: source->target)`, or `(source->target)` when its index is
/// null.
pub fn format_link(link: &Link) -> (r: String)
    ensures
        r@ == link_text(*link),
{
    let mut s = String::new();
    push_link(&mut s, link);
    assert(s@ =~= link_text(*link));
    s
}

/// The log line of one change: `<name>. Before: <link>. After: <link>`.
pub fn format_line(m: Mutation, before: &Link, after: &Link) -> (r: String)
    ensures
        r@ == line_text(m, *before, *after),
{
    proof {
        reveal_strlit("Create");
        reveal_strlit("Update");
        reveal_strlit("Delete");
        reveal_strlit(". Before: ");
        reveal_strlit(". After: ");
    }
    let mut s = String::new();
    match m {
        Mutation::Create => s.append("Create"),
        Mutation::Update => s.append("Update"),
        Mutation::Delete => s.append("Delete"),
    }
    s.append(". Before: ");
    push_link(&mut s, before);
    s.append(". After: ");
    push_link(&mut s, after);
    assert(s@ =~= line_text(m, *before, *after));
    s
}

/// A write handler that keeps every change it receives and passes it on to a fused
/// handler; it always answers `Continue`, and gives back the log line of each change.
pub struct LineLogger<H: WriteHandler> {
    mutation: Mutation,
    fuse: Fuse<H>,
    changes: Vec<(Link, Link)>,
}

impl<H: WriteHandler> LineLogger<H> {
    /// The kind of change the lines name.
    pub closed spec fn mutation(&self) -> Mutation {
        self.mutation
    }

    /// The fuse around the handler the changes are passed to.
    pub closed spec fn fused(&self) -> Fuse<H> {
        self.fuse
    }

    /// The changes received, each answered `Continue`.
    pub closed spec fn received(&self) -> Seq<(Link, Link, Flow)> {
        self.changes@.map_values(|c: (Link, Link)| (c.0, c.1, Flow::Continue))
    }

    /// A logger naming its lines after `mutation` and passing changes on to `handler`.
    pub fn new(mutation: Mutation, handler: H) -> (r: LineLogger<H>)
        ensures
            r.calls() == Seq::<(Link, Link, Flow)>::empty(),
            r.mutation() == mutation,
            r.fused().inner() == handler,
            !r.fused().is_done(),
            r.fused().calls() == Seq::<(Link, Link, Flow)>::empty(),
    {
        let r = LineLogger { mutation, fuse: Fuse::new(handler), changes: Vec::new() };
        assert(r.received() =~= Seq::<(Link, Link, Flow)>::empty());
        r
    }

    /// The log lines, one for each change received in order, and the handler.
    pub fn into_parts(self) -> (r: (Vec<String>, H))
        ensures
            r.0@.len() == self.calls().len(),
            forall|i: int|
                0 <= i < self.calls().len() ==> (#[trigger] r.0@[i])@ == line_text(self.mutation(), self.calls()[i].0, self.calls()[i].1),
            forall|i: int| 0 <= i < self.calls().len() ==> (#[trigger] self.calls()[i]).2 == Flow::Continue,
            r.1 == self.fused().inner(),
    {
        let mut lines: Vec<String> = Vec::new();
        let mut i: usize = 0;
        while i < self.changes.len()
            invariant
                i <= self.changes@.len(),
                lines@.len() == i,
                forall|j: int| 0 <= j < i ==> (#[trigger] lines@[j])@ == line_text(self.mutation, self.changes@[j].0, self.changes@[j].1),
            decreases self.changes@.len() - i,
        {
            let change = self.changes[i];
            let line = format_line(self.mutation, &change.0, &change.1);
            lines.push(line);
            i = i + 1;
        }
        (lines, self.fuse.into_inner())
    }
}

impl<H: WriteHandler> WriteHandler for LineLogger<H> {
    closed spec fn calls(&self) -> Seq<(Link, Link, Flow)> {
        self.received()
    }

    fn handle(&mut self, before: Link, after: Link) -> (r: Flow)
        ensures
            r == Flow::Continue,
            final(self).mutation() == old(self).mutation(),
            exists|f: Flow| fuse_step(old(self).fused(), before, after, f, final(self).fused()),
    {
        let ghost old_received = self.received();
        let ghost old_fuse = self.fuse;
        let f = self.fuse.call(before, after);
        assert(fuse_step(old_fuse, before, after, f, self.fuse));
        self.changes.push((before, after));
        assert(self.received() =~= old_received.push((before, after, Flow::Continue)));
        assert(fuse_step(old(self).fused(), before, after, f, self.fused()));
        Flow::Continue
    }
}

} // verus!
