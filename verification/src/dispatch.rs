//! Event dispatch: which subscribers an event reaches, in what order, under
//! which suppress level, and how a capture cuts the delivery short.

use vstd::prelude::*;

use crate::channel::Subscription;
use crate::event::Event;
use crate::event::spec_channels;
use crate::event::views_of_subs;
use crate::passes::PassItem;
use crate::passes::spec_subscribers;
use crate::registry::Connection;
use crate::suppressor::spec_level;

verus! {

/// Whether a suppress level lets a subscriber through: a suppressor blocks
/// the subscribers at or below its priority, so only a subscriber with a
/// priority strictly above the level is visited.
pub open spec fn level_admits(level: Option<u32>, priority: Option<u32>) -> bool {
    match level {
        Option::None => true,
        Option::Some(l) => match priority {
            Option::Some(p) => p > l,
            Option::None => false,
        },
    }
}

/// The subscribers that pass the suppress level, in their delivery order.
pub open spec fn filter_level(ts: Seq<PassItem>, level: Option<u32>) -> Seq<PassItem>
    decreases ts.len(),
{
    if ts.len() == 0 {
        Seq::empty()
    } else {
        let rest = filter_level(ts.drop_last(), level);
        if level_admits(level, ts.last().priority) {
            rest.push(ts.last())
        } else {
            rest
        }
    }
}

/// The lower of two optional suppress levels: the level handed deeper into a
/// subtree is the minimum of the inherited and the local one.
pub open spec fn opt_min(a: Option<u32>, b: Option<u32>) -> Option<u32> {
    match (a, b) {
        (Option::Some(x), Option::Some(y)) => if x <= y {
            Option::Some(x)
        } else {
            Option::Some(y)
        },
        (Option::Some(x), Option::None) => Option::Some(x),
        (Option::None, Option::Some(y)) => Option::Some(y),
        (Option::None, Option::None) => Option::None,
    }
}

/// Executable form of `opt_min`.
pub fn opt_min_exec(a: Option<u32>, b: Option<u32>) -> (r: Option<u32>)
    ensures
        r == opt_min(a, b),
{
    match (a, b) {
        (Option::Some(x), Option::Some(y)) => if x <= y {
            Option::Some(x)
        } else {
            Option::Some(y)
        },
        (Option::Some(x), Option::None) => Option::Some(x),
        (Option::None, Option::Some(y)) => Option::Some(y),
        (Option::None, Option::None) => Option::None,
    }
}

/// Executable form of `level_admits`.
pub fn level_admits_exec(level: &Option<u32>, priority: &Option<u32>) -> (r: bool)
    ensures
        r == level_admits(*level, *priority),
{
    match level {
        Option::None => true,
        Option::Some(l) => match priority {
            Option::Some(p) => *p > *l,
            Option::None => false,
        },
    }
}

/// The first index whose reply captures the event (replies with `false`),
/// or -1 when every reply passes it on.
pub open spec fn first_capture(replies: Seq<bool>) -> int
    decreases replies.len(),
{
    if replies.len() == 0 {
        -1
    } else if !replies[0] {
        0
    } else {
        let r = first_capture(replies.drop_first());
        if r == -1 {
            -1
        } else {
            r + 1
        }
    }
}

pub proof fn lemma_first_capture(replies: Seq<bool>)
    ensures
        first_capture(replies) == -1 ==> forall|i: int| 0 <= i < replies.len() ==> replies[i],
        first_capture(replies) != -1 ==> {
            let r = first_capture(replies);
            &&& 0 <= r < replies.len()
            &&& !replies[r]
            &&& forall|i: int| 0 <= i < r ==> replies[i]
        },
    decreases replies.len(),
{
    if replies.len() > 0 && replies[0] {
        lemma_first_capture(replies.drop_first());
        let r = first_capture(replies.drop_first());
        if r == -1 {
            assert forall|i: int| 0 <= i < replies.len() implies replies[i] by {
                if i > 0 {
                    assert(replies.drop_first()[i - 1] == replies[i]);
                }
            }
        } else {
            assert(replies.drop_first()[r] == replies[r + 1]);
            assert forall|i: int| 0 <= i < r + 1 implies replies[i] by {
                if i > 0 {
                    assert(replies.drop_first()[i - 1] == replies[i]);
                }
            }
        }
    }
}

/// Who actually receives the event, given the targets in delivery order and
/// each visited target's reply: the targets up to and including the first
/// capturer; everyone when nobody captures.
pub open spec fn spec_delivered(ts: Seq<PassItem>, replies: Seq<bool>) -> Seq<PassItem> {
    let fc = first_capture(replies);
    if fc == -1 || fc >= ts.len() {
        ts
    } else {
        ts.subrange(0, fc + 1)
    }
}

/// The suppress-filtered delivery order of an event at one space: the
/// priority-ordered subscribers of the event's channels, restricted to those
/// the current suppress level admits. The level is the maximum of the
/// matched channels' top suppressor priorities, lowered to the inherited
/// level when that is smaller.
pub fn dispatch_targets(space: &Connection, event: &Event, inherited: Option<u32>) -> (r: Vec<
    PassItem,
>)
    requires
        space.passes.wf(),
        space.suppressors.wf(),
    ensures
        r@ == filter_level(
            spec_subscribers(space.passes@, spec_channels(*event)),
            opt_min(
                inherited,
                spec_level(space.suppressors@, spec_channels(*event)),
            ),
        ),
{
    let subs: Vec<Subscription> = event.subscriptions();
    let local = space.suppressors.suppress_level(&subs);
    let level = opt_min_exec(inherited, local);
    let ts = space.passes.subscribers(&subs);
    let ghost all = spec_subscribers(space.passes@, spec_channels(*event));
    let n: usize = ts.len();
    let mut r: Vec<PassItem> = Vec::new();
    let mut i: usize = 0;
    while i < n
        invariant
            n == ts@.len(),
            ts@ == all,
            0 <= i <= n,
            r@ == filter_level(all.subrange(0, i as int), level),
        decreases n - i,
    {
        proof {
            assert(all.subrange(0, i + 1).drop_last() =~= all.subrange(0, i as int));
            assert(all.subrange(0, i + 1).last() == all[i as int]);
        }
        let it = ts[i];
        if level_admits_exec(&level, &it.priority) {
            r.push(it);
            proof {
                assert(r@ =~= filter_level(all.subrange(0, i + 1), level));
            }
        } else {
            proof {
                assert(r@ =~= filter_level(all.subrange(0, i + 1), level));
            }
        }
        i = i + 1;
    }
    proof {
        assert(all.subrange(0, n as int) =~= all);
    }
    r
}

/// Cut the delivery at the first capture: returns who received the event and
/// whether it was captured. `replies[i]` is target `i`'s answer, `true` to
/// pass the event on, `false` to capture it.
pub fn delivered_prefix(ts: &Vec<PassItem>, replies: &Vec<bool>) -> (r: (Vec<PassItem>, bool))
    requires
        replies@.len() == ts@.len(),
    ensures
        r.0@ == spec_delivered(ts@, replies@),
        r.1 == (first_capture(replies@) != -1 && first_capture(replies@) < ts@.len()),
    {
    let n: usize = ts.len();
    let mut out: Vec<PassItem> = Vec::new();
    let mut i: usize = 0;
    proof {
        lemma_first_capture(replies@);
    }
    while i < n && replies[i]
        invariant
            n == ts@.len(),
            replies@.len() == n,
            0 <= i <= n,
            out@ == ts@.subrange(0, i as int),
            forall|j: int| 0 <= j < i ==> replies@[j],
        decreases n - i,
    {
        out.push(ts[i]);
        proof {
            assert(out@ =~= ts@.subrange(0, i + 1));
        }
        i = i + 1;
    }
    proof {
        lemma_first_capture(replies@);
    }
    if i < n {
        // replies[i] is false: the capturer still receives the event
        out.push(ts[i]);
        proof {
            assert(first_capture(replies@) == i as int) by {
                lemma_first_capture(replies@);
                let f = first_capture(replies@);
                if f == -1 {
                    assert(replies@[i as int]);
                }
                if f != -1 && f < i as int {
                    assert(replies@[f]);
                }
                if f != -1 && f > i as int {
                    assert(!replies@[i as int]);
                }
            }
            assert(out@ =~= ts@.subrange(0, i + 1));
        }
        (out, true)
    } else {
        proof {
            assert(out@ =~= ts@.subrange(0, n as int));
            assert(ts@.subrange(0, n as int) =~= ts@);
            let f = first_capture(replies@);
            if f != -1 {
                assert(replies@[f]);
            }
        }
        (out, false)
    }
}


/// One event's delivery session at a space: the admitted subscribers still
/// to be visited, in delivery order. The host sends the event to one
/// subscriber at a time and feeds each acknowledgement back; a `pass` of
/// false captures the event, and a failed write counts as passing it on.
pub struct EventSession {
    pub remaining: Vec<PassItem>,
}

/// What the session asks of the host next.
pub enum SessionStep {
    /// send the event to this subscriber and await its acknowledgement
    SendTo { id: usize },
    /// the last subscriber captured the event: stop; nothing propagates
    Captured,
    /// every subscriber has passed the event on: propagate into the
    /// focused subspace
    Finished,
}

/// Open a delivery session over the admitted targets: the first subscriber
/// to visit, or nothing to do.
pub fn session_start(targets: Vec<PassItem>) -> (r: (SessionStep, EventSession))
    ensures
        targets@.len() == 0 ==> (r.0 is Finished) && r.1.remaining@ == targets@,
        targets@.len() > 0 ==> (r.0 matches SessionStep::SendTo { id } && id == targets@[0].id)
            && r.1.remaining@ == targets@.subrange(1, targets@.len() as int),
{
    let ghost t0 = targets@;
    let mut s = EventSession { remaining: targets };
    if s.remaining.len() == 0 {
        (SessionStep::Finished, s)
    } else {
        let first = s.remaining.remove(0);
        proof {
            assert(s.remaining@ =~= t0.subrange(1, t0.len() as int));
        }
        (SessionStep::SendTo { id: first.id }, s)
    }
}

/// Advance the session on one acknowledgement: a capture stops it, a pass
/// moves to the next subscriber, and past the last one the event travels
/// down.
pub fn session_step(s: &mut EventSession, pass: bool) -> (r: SessionStep)
    ensures
        !pass ==> (r is Captured) && final(s).remaining@ == old(s).remaining@,
        pass && old(s).remaining@.len() == 0 ==> (r is Finished) && final(s).remaining@ == old(
            s,
        ).remaining@,
        pass && old(s).remaining@.len() > 0 ==> (r matches SessionStep::SendTo { id } && id
            == old(s).remaining@[0].id) && final(s).remaining@ == old(s).remaining@.subrange(
            1,
            old(s).remaining@.len() as int,
        ),
{
    if !pass {
        return SessionStep::Captured;
    }
    if s.remaining.len() == 0 {
        return SessionStep::Finished;
    }
    let next = s.remaining.remove(0);
    proof {
        assert(s.remaining@ =~= old(s).remaining@.subrange(
            1,
            old(s).remaining@.len() as int,
        ));
    }
    SessionStep::SendTo { id: next.id }
}

/// Whether dispatch continues into the focused subspace after visiting the
/// subscribers: a captured event stops, and a focus-gained event is never
/// propagated downward on its own.
pub fn propagates_down(event: &Event, captured: bool) -> (r: bool)
    ensures
        r == (!captured && !(*event is Focus)),
{
    if captured {
        false
    } else {
        match event {
            Event::Focus => false,
            _ => true,
        }
    }
}

} // verus!
