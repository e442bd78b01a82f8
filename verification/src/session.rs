use vstd::prelude::*;

verus! {

/// One WebSocket frame as the message loop sees it.
pub enum Frame {
    Text(Vec<u8>),
    Binary(Vec<u8>),
    Ping(Vec<u8>),
    Pong(Vec<u8>),
    Close,
}

/// What one receive on the connection's channel reported.
pub enum Event {
    /// A frame arrived.
    Received(Frame),
    /// The channel reported an error (peer reset, malformed frame).
    RecvError,
    /// The channel is exhausted: the transport dropped.
    Dropped,
}

/// Lifecycle state of one connection's message loop.
pub enum LoopState {
    /// The loop is waiting for the next frame.
    Receiving,
    /// The loop has ended; no further receives, no further sends.
    Closed,
}

/// Whether `e` ends the message loop: a close frame, a receive error, or
/// the transport dropping. Text, binary, ping and pong frames do not.
pub open spec fn terminates(e: Event) -> bool {
    match e {
        Event::Received(f) => f is Close,
        Event::RecvError => true,
        Event::Dropped => true,
    }
}

/// The loop's transition function: a terminating event moves `Receiving`
/// to `Closed`; every other frame is discarded and the state is kept.
/// `Closed` is terminal: nothing leaves it.
pub open spec fn next_state(s: LoopState, e: Event) -> LoopState {
    match s {
        LoopState::Closed => LoopState::Closed,
        LoopState::Receiving => if terminates(e) {
            LoopState::Closed
        } else {
            LoopState::Receiving
        },
    }
}

/// The state the loop reaches after receiving the events of `evs` in
/// arrival order, starting from `s`.
pub open spec fn run_state(s: LoopState, evs: Seq<Event>) -> LoopState
    decreases evs.len(),
{
    if evs.len() == 0 {
        s
    } else {
        run_state(next_state(s, evs[0]), evs.drop_first())
    }
}

/// Running one more event after a series is one more transition.
pub proof fn lemma_run_state_push(s: LoopState, evs: Seq<Event>, e: Event)
    ensures
        run_state(s, evs.push(e)) == next_state(run_state(s, evs), e),
    decreases evs.len(),
{
    reveal_with_fuel(run_state, 2);
    assert(evs.push(e)[0] == if evs.len() == 0 { e } else { evs[0] });
    if evs.len() == 0 {
        assert(evs.push(e).drop_first() =~= Seq::<Event>::empty());
    } else {
        assert(evs.push(e).drop_first() =~= evs.drop_first().push(e));
        lemma_run_state_push(next_state(s, evs[0]), evs.drop_first(), e);
    }
}

/// `Closed` is terminal: whatever still arrives, the loop stays ended.
pub proof fn lemma_closed_run(evs: Seq<Event>)
    ensures
        run_state(LoopState::Closed, evs) == LoopState::Closed,
    decreases evs.len(),
{
    if evs.len() > 0 {
        lemma_closed_run(evs.drop_first());
    }
}

/// A run decomposes at any point: the state after all of `evs` is the state
/// after its first `i` events, run over the rest.
pub proof fn lemma_run_state_split(s: LoopState, evs: Seq<Event>, i: int)
    requires
        0 <= i <= evs.len(),
    ensures
        run_state(s, evs) == run_state(run_state(s, evs.take(i)), evs.skip(i)),
    decreases i,
{
    if i == 0 {
        assert(evs.take(0) =~= Seq::<Event>::empty());
        assert(evs.skip(0) =~= evs);
    } else {
        lemma_run_state_split(next_state(s, evs[0]), evs.drop_first(), i - 1);
        assert(evs.drop_first().take(i - 1) =~= evs.take(i).drop_first());
        assert(evs.drop_first().skip(i - 1) =~= evs.skip(i));
        assert(run_state(s, evs.take(i)) == run_state(
            next_state(s, evs.take(i)[0]),
            evs.take(i).drop_first(),
        ));
    }
}

/// The connection stays open until a close frame arrives or the transport
/// drops: a receiving loop fed only text, binary, ping and pong frames is
/// still receiving.
pub proof fn lemma_stays_receiving(evs: Seq<Event>)
    requires
        forall|i: int| 0 <= i < evs.len() ==> !terminates(evs[i]),
    ensures
        run_state(LoopState::Receiving, evs) is Receiving,
    decreases evs.len(),
{
    if evs.len() > 0 {
        assert(forall|i: int|
            0 <= i < evs.drop_first().len() ==> evs.drop_first()[i] == evs[i + 1]);
        lemma_stays_receiving(evs.drop_first());
    }
}

/// Two concurrent connections under one schedule: each entry of `sched`
/// delivers one event to one of the two loops (`true` picks the first) and
/// leaves the other loop untouched, as each connection is owned exclusively
/// by its own serving task.
pub open spec fn run_pair(
    sa: LoopState,
    sb: LoopState,
    sched: Seq<(bool, Event)>,
) -> (LoopState, LoopState)
    decreases sched.len(),
{
    if sched.len() == 0 {
        (sa, sb)
    } else if sched[0].0 {
        run_pair(next_state(sa, sched[0].1), sb, sched.drop_first())
    } else {
        run_pair(sa, next_state(sb, sched[0].1), sched.drop_first())
    }
}

/// The events that `sched` delivers to the loop picked by `to_first`, in
/// schedule order.
pub open spec fn events_for(sched: Seq<(bool, Event)>, to_first: bool) -> Seq<Event>
    decreases sched.len(),
{
    if sched.len() == 0 {
        Seq::empty()
    } else if sched[0].0 == to_first {
        seq![sched[0].1] + events_for(sched.drop_first(), to_first)
    } else {
        events_for(sched.drop_first(), to_first)
    }
}

/// Concurrent clients are fully isolated: under every interleaving, each
/// loop ends in exactly the state that its own events alone produce, so
/// nothing one client sends is ever observed by the other. (No event
/// produces a reply either, so no frame crosses between connections.)
pub proof fn lemma_clients_isolated(sa: LoopState, sb: LoopState, sched: Seq<(bool, Event)>)
    ensures
        run_pair(sa, sb, sched).0 == run_state(sa, events_for(sched, true)),
        run_pair(sa, sb, sched).1 == run_state(sb, events_for(sched, false)),
    decreases sched.len(),
{
    reveal_with_fuel(run_state, 2);
    if sched.len() > 0 {
        let e = sched[0].1;
        let rest = sched.drop_first();
        if sched[0].0 {
            lemma_clients_isolated(next_state(sa, e), sb, rest);
            assert(events_for(sched, true) == seq![e] + events_for(rest, true));
            assert((seq![e] + events_for(rest, true))[0] == e);
            assert((seq![e] + events_for(rest, true)).drop_first() =~= events_for(rest, true));
            assert(events_for(sched, false) == events_for(rest, false));
        } else {
            lemma_clients_isolated(sa, next_state(sb, e), rest);
            assert(events_for(sched, false) == seq![e] + events_for(rest, false));
            assert((seq![e] + events_for(rest, false))[0] == e);
            assert((seq![e] + events_for(rest, false)).drop_first() =~= events_for(rest, false));
            assert(events_for(sched, true) == events_for(rest, true));
        }
    }
}

/// Ending the loop is idempotent: a second close frame (or any further
/// terminating event) changes nothing, since the loop has already ended.
pub proof fn lemma_close_idempotent(s: LoopState, e: Event)
    requires
        terminates(e),
    ensures
        next_state(s, e) is Closed,
        next_state(next_state(s, e), e) == next_state(s, e),
{
}

/// The message loop of one connection. Each connection owns exactly one.
pub struct Session {
    state: LoopState,
}

impl Session {
    /// The loop's current lifecycle state.
    pub closed spec fn state(self) -> LoopState {
        self.state
    }

    /// A fresh session, as created on a successful upgrade: receiving.
    pub fn new() -> (s: Session)
        ensures
            s.state() is Receiving,
    {
        Session { state: LoopState::Receiving }
    }

    /// Whether the loop has ended.
    pub fn is_closed(&self) -> (r: bool)
        ensures
            r == (self.state() is Closed),
    {
        match self.state {
            LoopState::Closed => true,
            LoopState::Receiving => false,
        }
    }

    /// Handles one receive event: the payload of a text or binary frame is
    /// read and discarded, a terminating event ends the loop, and no event
    /// ever produces a reply frame.
    pub fn handle_event(&mut self, e: Event) -> (reply: Option<Frame>)
        ensures
            reply is None,
            final(self).state() == next_state(old(self).state(), e),
    {
        match self.state {
            LoopState::Closed => {},
            LoopState::Receiving => {
                match e {
                    Event::Received(Frame::Text(_payload)) => {},
                    Event::Received(Frame::Binary(_payload)) => {},
                    Event::Received(Frame::Ping(_payload)) => {},
                    Event::Received(Frame::Pong(_payload)) => {},
                    Event::Received(Frame::Close) => {
                        self.state = LoopState::Closed;
                    },
                    Event::RecvError => {
                        self.state = LoopState::Closed;
                    },
                    Event::Dropped => {
                        self.state = LoopState::Closed;
                    },
                }
            },
        }
        None
    }

    /// Feeds a whole series of receive events to the loop, in arrival order,
    /// as the per-connection task does: it stops receiving once the loop has
    /// ended, and it never sends a frame back.
    pub fn run(&mut self, events: Vec<Event>) -> (replies: Vec<Frame>)
        ensures
            replies@ == Seq::<Frame>::empty(),
            final(self).state() == run_state(old(self).state(), events@),
    {
        let ghost all: Seq<Event> = events@;
        let ghost init: LoopState = self.state();
        let mut pending = events;
        let mut replies: Vec<Frame> = Vec::new();
        let ghost done: int = 0;
        loop
            invariant
                init == old(self).state(),
                all == events@,
                0 <= done <= all.len(),
                pending@ =~= all.skip(done),
                replies@ == Seq::<Frame>::empty(),
                self.state() == run_state(init, all.take(done)),
            ensures
                replies@ == Seq::<Frame>::empty(),
                self.state() == run_state(init, all),
            decreases all.len() - done,
        {
            if pending.len() == 0 {
                proof {
                    assert(done == all.len());
                    assert(all.take(done) =~= all);
                }
                break;
            }
            if self.is_closed() {
                proof {
                    assert(self.state() == LoopState::Closed);
                    lemma_run_state_split(init, all, done);
                    lemma_closed_run(all.skip(done));
                }
                break;
            }
            let e = pending.remove(0);
            proof {
                assert(e == all.skip(done)[0]);
                assert(all.skip(done)[0] == all[done]);
            }
            let reply = self.handle_event(e);
            if let Some(frame) = reply {
                replies.push(frame);
            }
            proof {
                assert(all.take(done + 1) =~= all.take(done).push(all[done]));
                lemma_run_state_push(init, all.take(done), all[done]);
                assert(all.skip(done).remove(0) =~= all.skip(done + 1));
                done = done + 1;
            }
        }
        replies
    }
}

} // verus!
