//! The decisions of the reader's main loop: when to look for clients, when
//! to poll them, when to check that they are still the same, and when to
//! let go of them.

use vstd::prelude::*;
use crate::tourney::TourneyState;

verus! {

/// How long the loop waits between polls of attached clients, in milliseconds.
pub const POLLING_INTERVAL_MS: u64 = 16;

/// How long the loop waits after a failed search for clients, in milliseconds.
pub const SCAN_INTERVAL_MS: u64 = 1000;

/// After how many successful polls the attached clients are checked again.
pub const VALIDATE_INTERVAL: u32 = 62;

/// What the main loop does next.
#[derive(Debug, Clone, Copy, PartialEq, Eq, Structural)]
pub enum LoopAction {
    /// Look for the tournament clients and attach to them.
    Connect,
    /// Wait `SCAN_INTERVAL_MS`, then start over.
    WaitToScan,
    /// Wait `POLLING_INTERVAL_MS`, then poll the attached clients.
    WaitThenPoll,
    /// Check that the attached clients are still the running ones.
    Validate,
    /// Detach from the clients, then start over.
    Disconnect,
    /// Start over.
    Continue,
}

/// What came of an action of the main loop.
#[derive(Debug, Clone, Copy, PartialEq, Eq, Structural)]
pub enum LoopEvent {
    /// The reader's state, read on `Continue`.
    State(TourneyState),
    /// Whether the search for clients attached to them, on `Connect`.
    Connected(bool),
    /// The wait of `WaitToScan` is over.
    Slept,
    /// Whether the poll of `WaitThenPoll` succeeded.
    Polled(bool),
    /// Whether the check of `Validate` found the same clients.
    Validated(bool),
    /// The detach of `Disconnect` is done.
    Disconnected,
}

/// Whether `event` is what `action` can give.
pub open spec fn spec_event_fits(action: LoopAction, event: LoopEvent) -> bool {
    match action {
        LoopAction::Continue => event is State,
        LoopAction::Connect => event is Connected,
        LoopAction::WaitToScan => event is Slept,
        LoopAction::WaitThenPoll => event is Polled,
        LoopAction::Validate => event is Validated,
        LoopAction::Disconnect => event is Disconnected,
    }
}

/// The poll count and action after `event`, from the poll count `count`.
pub open spec fn spec_loop_next(count: u32, event: LoopEvent) -> (u32, LoopAction) {
    match event {
        LoopEvent::State(TourneyState::Scanning) => (0u32, LoopAction::Connect),
        LoopEvent::State(TourneyState::Connected) => (count, LoopAction::WaitThenPoll),
        LoopEvent::Connected(b) => (count, if b { LoopAction::Continue } else { LoopAction::WaitToScan }),
        LoopEvent::Slept => (count, LoopAction::Continue),
        LoopEvent::Polled(ok) => if ok { spec_successful_poll(count) } else { (count, LoopAction::Disconnect) },
        LoopEvent::Validated(b) => (count, if b { LoopAction::Continue } else { LoopAction::Disconnect }),
        LoopEvent::Disconnected => (count, LoopAction::Continue),
    }
}

/// The poll counts and actions of the loop from `count` and `action`
/// through `events`: the first is the start, each next one follows an event.
pub open spec fn spec_trace(count: u32, action: LoopAction, events: Seq<LoopEvent>) -> Seq<(u32, LoopAction)>
    decreases events.len(),
{
    if events.len() == 0 {
        seq![(count, action)]
    } else {
        let prev = spec_trace(count, action, events.drop_last());
        prev.push(spec_loop_next(prev.last().0, events.last()))
    }
}

/// Whether each event of `events` is one that the action before it gives.
pub open spec fn spec_events_fit(count: u32, action: LoopAction, events: Seq<LoopEvent>) -> bool {
    forall|i: int| 0 <= i < events.len() ==> spec_event_fits(#[trigger] spec_trace(count, action, events)[i].1, events[i])
}

/// The state of the main loop: the successful polls since the last check.
#[derive(Debug, Clone, Copy, PartialEq, Eq, Structural)]
pub struct Supervisor {
    pub poll_count: u32,
}

impl Supervisor {
    /// The count of polls is always below the check interval.
    pub open spec fn wf(&self) -> bool {
        self.poll_count < VALIDATE_INTERVAL
    }

    /// A loop that has not polled yet.
    pub fn new() -> (r: Self)
        ensures
            r.poll_count == 0,
            r.wf(),
    {
        Supervisor { poll_count: 0 }
    }

    /// The action for the reader's state: connect when scanning (the poll
    /// count starts over), else wait and poll.
    pub fn on_state(&mut self, state: TourneyState) -> (r: LoopAction)
        requires
            old(self).wf(),
        ensures
            final(self).wf(),
            state == TourneyState::Scanning ==> r == LoopAction::Connect && final(self).poll_count == 0,
            state == TourneyState::Connected ==> r == LoopAction::WaitThenPoll && *final(self) == *old(self),
    {
        match state {
            TourneyState::Scanning => {
                self.poll_count = 0;
                LoopAction::Connect
            },
            TourneyState::Connected => LoopAction::WaitThenPoll,
        }
    }

    /// After a search for clients: start over at once when attached, else
    /// wait first.
    pub fn after_connect(&self, connected: bool) -> (r: LoopAction)
        ensures
            r == if connected { LoopAction::Continue } else { LoopAction::WaitToScan },
    {
        if connected { LoopAction::Continue } else { LoopAction::WaitToScan }
    }

    /// After a poll: a failed poll detaches; a successful one is counted,
    /// and every `VALIDATE_INTERVAL`-th one asks for a check (the count
    /// starting over).
    pub fn after_poll(&mut self, ok: bool) -> (r: LoopAction)
        requires
            old(self).wf(),
        ensures
            final(self).wf(),
            !ok ==> r == LoopAction::Disconnect && *final(self) == *old(self),
            ok ==> (final(self).poll_count, r) == spec_successful_poll(old(self).poll_count),
    {
        if !ok {
            return LoopAction::Disconnect;
        }
        self.poll_count = self.poll_count + 1;
        if self.poll_count >= VALIDATE_INTERVAL {
            self.poll_count = 0;
            LoopAction::Validate
        } else {
            LoopAction::Continue
        }
    }

    /// The next action after `event`, which the last action gave; the
    /// poll count follows `spec_loop_next`.
    pub fn step(&mut self, event: LoopEvent) -> (r: LoopAction)
        requires
            old(self).wf(),
        ensures
            final(self).wf(),
            (final(self).poll_count, r) == spec_loop_next(old(self).poll_count, event),
    {
        match event {
            LoopEvent::State(state) => self.on_state(state),
            LoopEvent::Connected(b) => self.after_connect(b),
            LoopEvent::Slept => LoopAction::Continue,
            LoopEvent::Polled(ok) => self.after_poll(ok),
            LoopEvent::Validated(b) => self.after_validate(b),
            LoopEvent::Disconnected => LoopAction::Continue,
        }
    }

    /// After a check of the clients: detach when they changed.
    pub fn after_validate(&self, unchanged: bool) -> (r: LoopAction)
        ensures
            r == if unchanged { LoopAction::Continue } else { LoopAction::Disconnect },
    {
        if unchanged { LoopAction::Continue } else { LoopAction::Disconnect }
    }
}

/// The count and action after a successful poll from `count`: the poll is
/// counted, and reaching `VALIDATE_INTERVAL` asks for a check and starts the
/// count over.
pub open spec fn spec_successful_poll(count: u32) -> (u32, LoopAction) {
    if count + 1 >= VALIDATE_INTERVAL {
        (0u32, LoopAction::Validate)
    } else {
        ((count + 1) as u32, LoopAction::Continue)
    }
}

/// The count after `n` successful polls from `count`.
pub open spec fn spec_count_after(count: u32, n: nat) -> u32
    decreases n,
{
    if n == 0 {
        count
    } else {
        spec_successful_poll(spec_count_after(count, (n - 1) as nat)).0
    }
}

/// Successful polls ask for a check exactly at every `VALIDATE_INTERVAL`-th
/// one: from a count `c` below the interval, after `n` more polls the count
/// is `(c + n) % VALIDATE_INTERVAL`, and the `n`-th of them asks for a check
/// exactly when `c + n` is a multiple of the interval.
pub proof fn lemma_validate_every_interval(c: u32, n: nat)
    requires
        c < VALIDATE_INTERVAL,
        n >= 1,
    ensures
        spec_count_after(c, n) == (c + n) % (VALIDATE_INTERVAL as int),
        (spec_successful_poll(spec_count_after(c, (n - 1) as nat)).1 == LoopAction::Validate)
            <==> (c + n) % (VALIDATE_INTERVAL as int) == 0,
    decreases n,
{
    if n > 1 {
        lemma_validate_every_interval(c, (n - 1) as nat);
    }
}

proof fn lemma_trace_steps(count: u32, action: LoopAction, events: Seq<LoopEvent>)
    ensures
        spec_trace(count, action, events).len() == events.len() + 1,
        spec_trace(count, action, events)[0] == (count, action),
        forall|i: int| 0 <= i < events.len() ==> #[trigger] spec_trace(count, action, events)[i + 1]
            == spec_loop_next(spec_trace(count, action, events)[i].0, events[i]),
    decreases events.len(),
{
    if events.len() > 0 {
        let pe = events.drop_last();
        lemma_trace_steps(count, action, pe);
        let prev = spec_trace(count, action, pe);
        let t = spec_trace(count, action, events);
        assert forall|i: int| 0 <= i < events.len() implies #[trigger] t[i + 1] == spec_loop_next(t[i].0, events[i]) by {
            if i < pe.len() {
                assert(t[i + 1] == prev[i + 1]);
                assert(t[i] == prev[i]);
                assert(events[i] == pe[i]);
            } else {
                assert(t[i] == prev.last());
            }
        }
    }
}

/// The schedule of the main loop, over any run of it from a count below the
/// check interval: a failed poll is followed at once by a detach, so by no
/// other poll first; a detach is followed by starting over, which on the
/// scanning state a detach leaves looks for clients with the count back at
/// 0; a poll comes only right after reading the connected state; a failed
/// search waits `SCAN_INTERVAL_MS` and starts over; a failed check detaches;
/// and the count stays below the check interval.
pub proof fn lemma_loop_schedule(count: u32, action: LoopAction, events: Seq<LoopEvent>)
    requires
        count < VALIDATE_INTERVAL,
        spec_events_fit(count, action, events),
    ensures
        ({
            let t = spec_trace(count, action, events);
            &&& t.len() == events.len() + 1
            &&& forall|i: int| 0 <= i < t.len() ==> (#[trigger] t[i]).0 < VALIDATE_INTERVAL
            &&& forall|i: int| 0 <= i < events.len() ==> {
                &&& (t[i].1 == LoopAction::WaitThenPoll && events[i] == LoopEvent::Polled(false))
                    ==> #[trigger] t[i + 1].1 == LoopAction::Disconnect
                &&& t[i + 1].1 == LoopAction::WaitThenPoll
                    ==> t[i].1 == LoopAction::Continue && events[i] == LoopEvent::State(TourneyState::Connected)
                &&& t[i].1 == LoopAction::Disconnect ==> t[i + 1].1 == LoopAction::Continue
                &&& events[i] == LoopEvent::State(TourneyState::Scanning) ==> t[i + 1] == (0u32, LoopAction::Connect)
                &&& (t[i].1 == LoopAction::Connect && events[i] == LoopEvent::Connected(false))
                    ==> t[i + 1].1 == LoopAction::WaitToScan
                &&& t[i].1 == LoopAction::WaitToScan ==> t[i + 1].1 == LoopAction::Continue
                &&& (t[i].1 == LoopAction::Validate && events[i] == LoopEvent::Validated(false))
                    ==> t[i + 1].1 == LoopAction::Disconnect
            }
        }),
{
    lemma_trace_steps(count, action, events);
    let t = spec_trace(count, action, events);
    assert forall|i: int| 0 <= i < t.len() implies (#[trigger] t[i]).0 < VALIDATE_INTERVAL by {
        lemma_trace_counts(count, action, events, i);
    }
    assert forall|i: int| 0 <= i < events.len() implies {
        &&& (t[i].1 == LoopAction::WaitThenPoll && events[i] == LoopEvent::Polled(false))
            ==> #[trigger] t[i + 1].1 == LoopAction::Disconnect
        &&& t[i + 1].1 == LoopAction::WaitThenPoll
            ==> t[i].1 == LoopAction::Continue && events[i] == LoopEvent::State(TourneyState::Connected)
        &&& t[i].1 == LoopAction::Disconnect ==> t[i + 1].1 == LoopAction::Continue
        &&& events[i] == LoopEvent::State(TourneyState::Scanning) ==> t[i + 1] == (0u32, LoopAction::Connect)
        &&& (t[i].1 == LoopAction::Connect && events[i] == LoopEvent::Connected(false))
            ==> t[i + 1].1 == LoopAction::WaitToScan
        &&& t[i].1 == LoopAction::WaitToScan ==> t[i + 1].1 == LoopAction::Continue
        &&& (t[i].1 == LoopAction::Validate && events[i] == LoopEvent::Validated(false))
            ==> t[i + 1].1 == LoopAction::Disconnect
    } by {
        assert(spec_event_fits(t[i].1, events[i]));
        assert(t[i + 1] == spec_loop_next(t[i].0, events[i]));
    }
}

proof fn lemma_trace_counts(count: u32, action: LoopAction, events: Seq<LoopEvent>, i: int)
    requires
        count < VALIDATE_INTERVAL,
        0 <= i <= events.len(),
    ensures
        spec_trace(count, action, events)[i].0 < VALIDATE_INTERVAL,
    decreases i,
{
    lemma_trace_steps(count, action, events);
    if i > 0 {
        lemma_trace_counts(count, action, events, i - 1);
        let t = spec_trace(count, action, events);
        assert(t[(i - 1) + 1] == spec_loop_next(t[i - 1].0, events[i - 1]));
    }
}

/// The successful polls since the last search for clients (the loop finding
/// the reader scanning, as it does after every detach), counted from
/// `count` when `events` hold no such search.
pub open spec fn spec_polls_since_search(count: u32, events: Seq<LoopEvent>) -> nat
    decreases events.len(),
{
    if events.len() == 0 {
        count as nat
    } else {
        let p = spec_polls_since_search(count, events.drop_last());
        match events.last() {
            LoopEvent::State(TourneyState::Scanning) => 0,
            LoopEvent::Polled(true) => p + 1,
            _ => p,
        }
    }
}

proof fn lemma_trace_count_is_polls(count: u32, action: LoopAction, events: Seq<LoopEvent>, i: int)
    requires
        count < VALIDATE_INTERVAL,
        0 <= i <= events.len(),
    ensures
        spec_trace(count, action, events)[i].0 == spec_polls_since_search(count, events.take(i)) % (VALIDATE_INTERVAL as nat),
    decreases i,
{
    lemma_trace_steps(count, action, events);
    let t = spec_trace(count, action, events);
    if i == 0 {
        assert(events.take(0) =~= Seq::<LoopEvent>::empty());
    } else {
        lemma_trace_count_is_polls(count, action, events, i - 1);
        assert(t[(i - 1) + 1] == spec_loop_next(t[i - 1].0, events[i - 1]));
        let pre = events.take(i);
        assert(pre.drop_last() =~= events.take(i - 1));
        assert(pre.last() == events[i - 1]);
        let p = spec_polls_since_search(count, events.take(i - 1));
        assert(t[i - 1].0 == p % 62);
        if events[i - 1] == LoopEvent::Polled(true) {
            assert((p + 1) % 62 == if p % 62 + 1 >= 62 { 0 } else { p % 62 + 1 }) by (nonlinear_arith);
        }
    }
}

/// Checks come on every `VALIDATE_INTERVAL`-th successful poll since the
/// last search for clients, over any run of the loop from a count below the
/// interval (counting from that count when the run holds no search): after
/// each event the count is those polls modulo the interval, a successful
/// poll asks for a check exactly when the polls since the last search are a
/// multiple of the interval, and nothing else asks for one.
pub proof fn lemma_validate_schedule(count: u32, action: LoopAction, events: Seq<LoopEvent>)
    requires
        count < VALIDATE_INTERVAL,
        spec_events_fit(count, action, events),
    ensures
        ({
            let t = spec_trace(count, action, events);
            &&& forall|i: int| 0 <= i <= events.len() ==> (#[trigger] t[i]).0
                == spec_polls_since_search(count, events.take(i)) % (VALIDATE_INTERVAL as nat)
            &&& forall|i: int| 0 <= i < events.len() && events[i] == LoopEvent::Polled(true)
                ==> (#[trigger] t[i + 1].1 == LoopAction::Validate <==> spec_polls_since_search(count, events.take(i + 1))
                    % (VALIDATE_INTERVAL as nat) == 0)
            &&& forall|i: int| 0 <= i < events.len() && #[trigger] t[i + 1].1 == LoopAction::Validate
                ==> events[i] == LoopEvent::Polled(true)
        }),
{
    lemma_trace_steps(count, action, events);
    let t = spec_trace(count, action, events);
    assert forall|i: int| 0 <= i <= events.len() implies (#[trigger] t[i]).0
        == spec_polls_since_search(count, events.take(i)) % (VALIDATE_INTERVAL as nat) by {
        lemma_trace_count_is_polls(count, action, events, i);
    }
    assert forall|i: int| 0 <= i < events.len() && events[i] == LoopEvent::Polled(true)
        implies (#[trigger] t[i + 1].1 == LoopAction::Validate <==> spec_polls_since_search(count, events.take(i + 1))
            % (VALIDATE_INTERVAL as nat) == 0) by {
        lemma_trace_count_is_polls(count, action, events, i);
        lemma_trace_count_is_polls(count, action, events, i + 1);
        assert(t[i + 1] == spec_loop_next(t[i].0, events[i]));
        lemma_trace_counts(count, action, events, i);
    }
    assert forall|i: int| 0 <= i < events.len() && #[trigger] t[i + 1].1 == LoopAction::Validate
        implies events[i] == LoopEvent::Polled(true) by {
        assert(t[i + 1] == spec_loop_next(t[i].0, events[i]));
    }
}

} // verus!
