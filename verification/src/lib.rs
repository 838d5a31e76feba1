//! Reader for a corpus of one-file-per-message emails: a header-folding
//! parser in the style of RFC 2822, a message assembler that checks the
//! required `Message-ID` and `Date` headers, and a stack-driven directory
//! walker state machine.

use vstd::multiset::Multiset;
use vstd::prelude::*;

pub mod headers;
pub mod laws;
pub mod mail;
pub mod text;

verus! {

/// Depth-first walker over a tree of paths: a work list seeded with the
/// root, popped one entry at a time; a directory's children are pushed
/// back in one batch.
pub struct EnronReaderIterator {
    stack: Vec<String>,
}

/// The stack as a sequence of path texts, bottom first.
pub open spec fn paths_view(stack: Seq<String>) -> Seq<Seq<char>> {
    stack.map_values(|p: String| p@)
}

impl View for EnronReaderIterator {
    type V = Seq<Seq<char>>;

    closed spec fn view(&self) -> Seq<Seq<char>> {
        paths_view(self.stack@)
    }
}

impl EnronReaderIterator {
    /// A walker whose work list holds exactly the root path.
    pub fn new(path: String) -> (r: Self)
        ensures
            r@ == seq![path@],
    {
        let mut stack: Vec<String> = Vec::new();
        stack.push(path);
        proof {
            assert(paths_view(stack@) =~= seq![stack@[0]@]);
        }
        Self { stack }
    }

    /// Pops the most recently pushed entry; `None` once the work list is
    /// empty, which ends the traversal.
    pub fn pop_entry(&mut self) -> (r: Option<String>)
        ensures
            old(self)@.len() == 0 ==> r is None && final(self)@ == old(self)@,
            old(self)@.len() > 0 ==> (r matches Some(p) && p@ == old(self)@.last()
                && final(self)@ == old(self)@.drop_last()),
    {
        let r = self.stack.pop();
        proof {
            if old(self)@.len() > 0 {
                assert(paths_view(self.stack@) =~= paths_view(old(self).stack@).drop_last());
            } else {
                assert(paths_view(self.stack@) =~= paths_view(old(self).stack@));
            }
        }
        r
    }

    /// Pushes a directory's children onto the work list, keeping the order
    /// in which the listing handed them out.
    pub fn push_children(&mut self, children: Vec<String>)
        ensures
            final(self)@ == old(self)@ + paths_view(children@),
    {
        let ghost cs = children@;
        let mut rest = children;
        self.stack.append(&mut rest);
        proof {
            assert(paths_view(self.stack@) =~= paths_view(old(self).stack@) + paths_view(cs));
        }
    }
}

/// A walker rooted at `path`: the traversal will visit everything
/// reachable from it.
pub fn read(path: String) -> (r: EnronReaderIterator)
    ensures
        r@ == seq![path@],
{
    EnronReaderIterator::new(path)
}

/// One observed step of a traversal: an entry popped from the work list,
/// or a directory's children pushed onto it.
pub enum WalkEvent {
    Popped(Seq<char>),
    Pushed(Seq<Seq<char>>),
}

/// Whether the walker's contracts allow the step on this stack: a pop
/// takes exactly the top entry, a push is always allowed.
pub open spec fn walk_step_ok(stack: Seq<Seq<char>>, e: WalkEvent) -> bool {
    match e {
        WalkEvent::Popped(p) => stack.len() > 0 && p == stack.last(),
        WalkEvent::Pushed(_) => true,
    }
}

/// The stack after the step, as `pop_entry` and `push_children` leave it.
pub open spec fn walk_step(stack: Seq<Seq<char>>, e: WalkEvent) -> Seq<Seq<char>> {
    match e {
        WalkEvent::Popped(_) => stack.drop_last(),
        WalkEvent::Pushed(cs) => stack + cs,
    }
}

/// Whether a whole run of steps is allowed from this stack.
pub open spec fn walk_trace_ok(stack: Seq<Seq<char>>, events: Seq<WalkEvent>) -> bool
    decreases events.len(),
{
    events.len() == 0 || (walk_step_ok(stack, events[0]) && walk_trace_ok(
        walk_step(stack, events[0]),
        events.skip(1),
    ))
}

/// The stack a run of steps leaves behind.
pub open spec fn walk_final(stack: Seq<Seq<char>>, events: Seq<WalkEvent>) -> Seq<Seq<char>>
    decreases events.len(),
{
    if events.len() == 0 {
        stack
    } else {
        walk_final(walk_step(stack, events[0]), events.skip(1))
    }
}

/// Every entry a run of steps pops, with multiplicity.
pub open spec fn popped_of(events: Seq<WalkEvent>) -> Multiset<Seq<char>>
    decreases events.len(),
{
    if events.len() == 0 {
        Multiset::empty()
    } else {
        match events[0] {
            WalkEvent::Popped(p) => popped_of(events.skip(1)).insert(p),
            WalkEvent::Pushed(_) => popped_of(events.skip(1)),
        }
    }
}

/// Every entry a run of steps pushes, with multiplicity.
pub open spec fn pushed_of(events: Seq<WalkEvent>) -> Multiset<Seq<char>>
    decreases events.len(),
{
    if events.len() == 0 {
        Multiset::empty()
    } else {
        match events[0] {
            WalkEvent::Popped(_) => pushed_of(events.skip(1)),
            WalkEvent::Pushed(cs) => cs.to_multiset().add(pushed_of(events.skip(1))),
        }
    }
}

/// Traversal accounting: over any run that the walker's contracts allow,
/// the popped entries together with what is still on the work list are
/// exactly the initial work list plus everything pushed. So no entry is
/// ever yielded twice, and a run that drains the work list yields every
/// entry the directory listings handed in exactly once.
pub proof fn lemma_walk_accounting(stack: Seq<Seq<char>>, events: Seq<WalkEvent>)
    requires
        walk_trace_ok(stack, events),
    ensures
        popped_of(events).add(walk_final(stack, events).to_multiset()) =~= stack.to_multiset().add(
            pushed_of(events),
        ),
    decreases events.len(),
{
    broadcast use vstd::multiset::group_multiset_axioms;

    if events.len() == 0 {
    } else {
        let rest = events.skip(1);
        let st1 = walk_step(stack, events[0]);
        lemma_walk_accounting(st1, rest);
        let fin = walk_final(st1, rest).to_multiset();
        assert(walk_final(stack, events) == walk_final(st1, rest));
        match events[0] {
            WalkEvent::Popped(p) => {
                assert(stack =~= stack.drop_last().push(p));
                stack.drop_last().to_multiset_ensures();
                assert(stack.to_multiset() =~= stack.drop_last().to_multiset().insert(p));
                assert(popped_of(events) == popped_of(rest).insert(p));
                assert(pushed_of(events) == pushed_of(rest));
                assert forall|x: Seq<char>|
                    popped_of(events).add(fin).count(x) == stack.to_multiset().add(
                        pushed_of(events),
                    ).count(x) by {
                    assert(popped_of(rest).add(fin).count(x) == st1.to_multiset().add(
                        pushed_of(rest),
                    ).count(x));
                }
            },
            WalkEvent::Pushed(cs) => {
                vstd::seq_lib::lemma_multiset_commutative(stack, cs);
                assert(popped_of(events) == popped_of(rest));
                assert(pushed_of(events) == cs.to_multiset().add(pushed_of(rest)));
                assert forall|x: Seq<char>|
                    popped_of(events).add(fin).count(x) == stack.to_multiset().add(
                        pushed_of(events),
                    ).count(x) by {
                    assert(popped_of(rest).add(fin).count(x) == st1.to_multiset().add(
                        pushed_of(rest),
                    ).count(x));
                    assert(st1.to_multiset().count(x) == stack.to_multiset().count(x)
                        + cs.to_multiset().count(x));
                }
            },
        }
    }
}

/// No entry is visited twice: an entry that the initial work list and
/// the directory listings together hand in at most once is popped at
/// most once, however the walk interleaves its steps.
pub proof fn lemma_no_double_visit(stack: Seq<Seq<char>>, events: Seq<WalkEvent>, p: Seq<char>)
    requires
        walk_trace_ok(stack, events),
        stack.to_multiset().count(p) + pushed_of(events).count(p) <= 1,
    ensures
        popped_of(events).count(p) <= 1,
{
    broadcast use vstd::multiset::group_multiset_axioms;

    lemma_walk_accounting(stack, events);
    assert(popped_of(events).add(walk_final(stack, events).to_multiset()).count(p)
        == stack.to_multiset().add(pushed_of(events)).count(p));
}

} // verus!
