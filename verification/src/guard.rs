//! Cancellation guard: a scoped resource bound to one engine-side handle.
//! Unless the owning exchange marks it complete, its teardown directs
//! exactly one cancel call for the handle — and never more than one,
//! however many teardown paths run.

use vstd::prelude::*;

verus! {

/// Where a guard stands in its life: still armed, released by a completed
/// exchange, or spent on the one cancel it will ever direct.
#[derive(Debug, Clone, Copy, PartialEq, Eq, Structural)]
pub enum GuardState {
    Active,
    Completed,
    Cancelled,
}

/// What can happen to a guard: the exchange marks it complete, or a
/// teardown path asks it whether to cancel.
#[derive(Debug, Clone, Copy, PartialEq, Eq, Structural)]
pub enum GuardEvent {
    Complete,
    Release,
}

/// One step of the guard's state machine: the state after the event, and
/// whether the event directs a cancel call.
pub open spec fn guard_step(s: GuardState, e: GuardEvent) -> (GuardState, bool) {
    match e {
        GuardEvent::Complete => (
            if s is Active {
                GuardState::Completed
            } else {
                s
            },
            false,
        ),
        GuardEvent::Release => if s is Active {
            (GuardState::Cancelled, true)
        } else {
            (s, false)
        },
    }
}

/// How many cancel calls a run of events directs, starting from `s`.
pub open spec fn cancels_issued(s: GuardState, events: Seq<GuardEvent>) -> nat
    decreases events.len(),
{
    if events.len() == 0 {
        0
    } else {
        let (s2, fired) = guard_step(s, events[0]);
        (if fired {
            1nat
        } else {
            0nat
        }) + cancels_issued(s2, events.drop_first())
    }
}

/// A guard that is no longer active never directs another cancel.
proof fn lemma_no_cancel_after_settled(s: GuardState, events: Seq<GuardEvent>)
    requires
        !(s is Active),
    ensures
        cancels_issued(s, events) == 0,
    decreases events.len(),
{
    if events.len() > 0 {
        let (s2, fired) = guard_step(s, events[0]);
        lemma_no_cancel_after_settled(s2, events.drop_first());
    }
}

/// Cancellation guarantee, upper half: whatever sequence of completions
/// and teardowns a guard sees, it directs at most one cancel call.
pub proof fn lemma_cancel_at_most_once(events: Seq<GuardEvent>)
    ensures
        cancels_issued(GuardState::Active, events) <= 1,
    decreases events.len(),
{
    if events.len() > 0 {
        let (s2, fired) = guard_step(GuardState::Active, events[0]);
        if s2 is Active {
            lemma_cancel_at_most_once(events.drop_first());
        } else {
            lemma_no_cancel_after_settled(s2, events.drop_first());
        }
    }
}

/// Cancellation guarantee, lower half: a guard that is torn down without
/// ever being marked complete directs exactly one cancel call.
pub proof fn lemma_cancel_on_abort(events: Seq<GuardEvent>)
    requires
        events.len() >= 1,
        forall|i: int| 0 <= i < events.len() ==> #[trigger] events[i] is Release,
    ensures
        cancels_issued(GuardState::Active, events) == 1,
{
    assert(events[0] is Release);
    let (s2, fired) = guard_step(GuardState::Active, events[0]);
    lemma_no_cancel_after_settled(s2, events.drop_first());
}

/// Guards one engine-side stream or WebSocket handle.
#[derive(Debug)]
pub struct StreamGuard {
    pub req_id: u64,
    pub state: GuardState,
}

impl StreamGuard {
    /// A fresh guard is armed.
    pub fn new(req_id: u64) -> (g: Self)
        ensures
            g.req_id == req_id,
            g.state is Active,
    {
        Self { req_id, state: GuardState::Active }
    }

    /// The exchange finished normally: disarm the guard so that no
    /// teardown path cancels the handle.
    pub fn complete(&mut self)
        ensures
            final(self).req_id == old(self).req_id,
            final(self).state == guard_step(old(self).state, GuardEvent::Complete).0,
    {
        if matches!(self.state, GuardState::Active) {
            self.state = GuardState::Completed;
        }
    }

    /// A teardown path runs: hands out the handle to cancel exactly when
    /// the guard is still armed, and disarms it for good either way.
    pub fn release(&mut self) -> (r: Option<u64>)
        ensures
            final(self).req_id == old(self).req_id,
            final(self).state == guard_step(old(self).state, GuardEvent::Release).0,
            r == (if guard_step(old(self).state, GuardEvent::Release).1 {
                Some(old(self).req_id)
            } else {
                None::<u64>
            }),
    {
        if matches!(self.state, GuardState::Active) {
            self.state = GuardState::Cancelled;
            Some(self.req_id)
        } else {
            None
        }
    }
}

} // verus!
