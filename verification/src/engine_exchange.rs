//! One request of the API to the engine over Redis. The API subscribes to a
//! fresh reply channel, pushes the request, wrapped with that channel, onto
//! the engine's queue, waits for one message on the channel, leaves the
//! channel and hands the reply on. The Redis calls are the caller's; the
//! machine here decides which call comes next and what it carries.

use vstd::prelude::*;
use vstd::string::StringExecFns;

use crate::api_messages::{
    CancelOrderData,
    CreateOrderData,
    GetDepthData,
    GetOpenOrdersData,
    MessageToEngine,
};

verus! {

/// A request for the engine, and the user it is made for.
#[derive(Debug)]
pub struct EngineRequest {
    pub user_id: String,
    pub message: MessageToEngine,
}

/// What the engine receives: the request, and the channel on which the
/// engine answers it.
#[derive(Debug)]
pub struct MessageWrapper {
    pub client_id: String,
    pub user_id: String,
    pub message: MessageToEngine,
}

/// How far an exchange has come: the call it waits on the outcome of, or
/// its end.
#[derive(Debug, Clone, Copy, PartialEq, Eq, Structural)]
pub enum ExchangePhase {
    Connecting,
    Checking,
    Subscribing,
    Pushing,
    Waiting,
    Leaving,
    Delivered,
    Aborted,
}

/// The outcome of the last call: it succeeded, it brought the reply, or
/// Redis failed.
#[derive(Debug)]
pub enum ExchangeEvent {
    Succeeded,
    Received { payload: String },
    Failed,
}

/// The next call to make.
#[derive(Debug)]
pub enum ExchangeStep {
    /// Open the subscriber and the publisher connections.
    Connect,
    /// Check the publisher connection with `PING`.
    Ping,
    /// Subscribe to the reply channel.
    Subscribe { channel: String },
    /// Push the wrapped request, serialized, onto the queue.
    Push { queue: String, envelope: MessageWrapper },
    /// Wait for one message on the reply channel.
    Receive,
    /// Leave the reply channel.
    Unsubscribe { channel: String },
    /// The exchange is over: decode the reply and return it.
    Deliver { payload: String },
    /// The exchange is over: return the error of the failed call.
    Abort,
}

/// An outcome, as the contracts see it.
pub enum EventView {
    Succeeded,
    Received(Seq<char>),
    Failed,
}

/// A call, as the contracts see it.
pub enum Move {
    Connect,
    Ping,
    Subscribe(Seq<char>),
    Push(Seq<char>),
    Receive,
    Unsubscribe(Seq<char>),
    Deliver(Seq<char>),
    Abort,
}

/// An exchange, as the contracts see it: its phase, its reply channel and
/// the reply it received.
pub struct ExchangeState {
    pub phase: ExchangePhase,
    pub channel: Seq<char>,
    pub payload: Seq<char>,
}

pub open spec fn event_view(e: ExchangeEvent) -> EventView {
    match e {
        ExchangeEvent::Succeeded => EventView::Succeeded,
        ExchangeEvent::Received { payload } => EventView::Received(payload@),
        ExchangeEvent::Failed => EventView::Failed,
    }
}

pub open spec fn move_of(s: ExchangeStep) -> Move {
    match s {
        ExchangeStep::Connect => Move::Connect,
        ExchangeStep::Ping => Move::Ping,
        ExchangeStep::Subscribe { channel } => Move::Subscribe(channel@),
        ExchangeStep::Push { queue, envelope } => Move::Push(envelope.client_id@),
        ExchangeStep::Receive => Move::Receive,
        ExchangeStep::Unsubscribe { channel } => Move::Unsubscribe(channel@),
        ExchangeStep::Deliver { payload } => Move::Deliver(payload@),
        ExchangeStep::Abort => Move::Abort,
    }
}

/// The outcomes an exchange can be told in a phase: none once it is over,
/// the reply only while it waits for one, and otherwise success or failure.
pub open spec fn accepts(p: ExchangePhase, e: EventView) -> bool {
    match p {
        ExchangePhase::Delivered | ExchangePhase::Aborted => false,
        ExchangePhase::Waiting => !(e is Succeeded),
        _ => !(e is Received),
    }
}

/// The state after an outcome: a failure aborts; otherwise the exchange
/// moves on by one phase, and the reply is kept when it comes.
pub open spec fn next_state(s: ExchangeState, e: EventView) -> ExchangeState {
    match e {
        EventView::Failed => ExchangeState { phase: ExchangePhase::Aborted, ..s },
        EventView::Received(p) => ExchangeState { phase: ExchangePhase::Leaving, payload: p, ..s },
        EventView::Succeeded => ExchangeState {
            phase: match s.phase {
                ExchangePhase::Connecting => ExchangePhase::Checking,
                ExchangePhase::Checking => ExchangePhase::Subscribing,
                ExchangePhase::Subscribing => ExchangePhase::Pushing,
                ExchangePhase::Pushing => ExchangePhase::Waiting,
                ExchangePhase::Leaving => ExchangePhase::Delivered,
                other => other,
            },
            ..s
        },
    }
}

/// The call after an outcome.
pub open spec fn next_move(s: ExchangeState, e: EventView) -> Move {
    match e {
        EventView::Failed => Move::Abort,
        EventView::Received(p) => Move::Unsubscribe(s.channel),
        EventView::Succeeded => match s.phase {
            ExchangePhase::Connecting => Move::Ping,
            ExchangePhase::Checking => Move::Subscribe(s.channel),
            ExchangePhase::Subscribing => Move::Push(s.channel),
            ExchangePhase::Pushing => Move::Receive,
            ExchangePhase::Leaving => Move::Deliver(s.payload),
            _ => Move::Abort,
        },
    }
}

/// A new exchange on `channel`.
pub open spec fn initial(channel: Seq<char>) -> ExchangeState {
    ExchangeState { phase: ExchangePhase::Connecting, channel, payload: Seq::empty() }
}

/// Whether an exchange in `s` can be told `events` one after another.
pub open spec fn accepted(s: ExchangeState, events: Seq<EventView>) -> bool
    decreases events.len(),
{
    events.len() == 0 || (accepts(s.phase, events[0]) && accepted(
        next_state(s, events[0]),
        events.drop_first(),
    ))
}

/// The calls an exchange in `s` asks for when told `events`.
pub open spec fn run(s: ExchangeState, events: Seq<EventView>) -> Seq<Move>
    decreases events.len(),
{
    if events.len() == 0 {
        Seq::empty()
    } else {
        seq![next_move(s, events[0])] + run(next_state(s, events[0]), events.drop_first())
    }
}

/// The phases in their order; an abort comes last.
pub open spec fn rank(p: ExchangePhase) -> int {
    match p {
        ExchangePhase::Connecting => 0,
        ExchangePhase::Checking => 1,
        ExchangePhase::Subscribing => 2,
        ExchangePhase::Pushing => 3,
        ExchangePhase::Waiting => 4,
        ExchangePhase::Leaving => 5,
        ExchangePhase::Delivered => 6,
        ExchangePhase::Aborted => 7,
    }
}

/// The name of the engine's request queue.
pub open spec fn request_queue() -> Seq<char> {
    seq!['m', 'e', 's', 's', 'a', 'g', 'e', 's']
}

proof fn lemma_run_len(s: ExchangeState, events: Seq<EventView>)
    ensures
        run(s, events).len() == events.len(),
    decreases events.len(),
{
    if events.len() > 0 {
        lemma_run_len(next_state(s, events[0]), events.drop_first());
    }
}

/// The first call of a run answers the first outcome; the others are the
/// run of the state it leads to.
proof fn lemma_run_unfold(s: ExchangeState, events: Seq<EventView>)
    requires
        events.len() > 0,
    ensures
        run(s, events)[0] == next_move(s, events[0]),
        forall|i: int|
            1 <= i < events.len() ==> #[trigger] run(s, events)[i] == run(
                next_state(s, events[0]),
                events.drop_first(),
            )[i - 1],
{
    lemma_run_len(next_state(s, events[0]), events.drop_first());
}

/// After the exchange is over it can be told nothing more.
proof fn lemma_over_is_silent(s: ExchangeState, events: Seq<EventView>)
    requires
        accepted(s, events),
        s.phase is Delivered || s.phase is Aborted,
    ensures
        events.len() == 0,
{
}

/// Every call that names a channel names the exchange's reply channel.
pub proof fn lemma_calls_name_the_reply_channel(s: ExchangeState, events: Seq<EventView>)
    ensures
        forall|i: int|
            0 <= i < events.len() ==> {
                let m = #[trigger] run(s, events)[i];
                &&& m matches Move::Subscribe(c) ==> c == s.channel
                &&& m matches Move::Push(c) ==> c == s.channel
                &&& m matches Move::Unsubscribe(c) ==> c == s.channel
            },
    decreases events.len(),
{
    lemma_run_len(s, events);
    if events.len() > 0 {
        lemma_run_unfold(s, events);
        lemma_calls_name_the_reply_channel(next_state(s, events[0]), events.drop_first());
        assert forall|i: int| 1 <= i < events.len() implies {
            let m = #[trigger] run(s, events)[i];
            &&& m matches Move::Subscribe(c) ==> c == s.channel
            &&& m matches Move::Push(c) ==> c == s.channel
            &&& m matches Move::Unsubscribe(c) ==> c == s.channel
        } by {
            assert(run(s, events)[i] == run(next_state(s, events[0]), events.drop_first())[i - 1]);
        }
    }
}

proof fn lemma_push_preceded(s: ExchangeState, events: Seq<EventView>)
    requires
        accepted(s, events),
        rank(s.phase) <= 1,
    ensures
        forall|i: int|
            0 <= i < events.len() && (#[trigger] run(s, events)[i] is Push) ==> exists|j: int|
                0 <= j < i && run(s, events)[j] == Move::Subscribe(s.channel),
    decreases events.len(),
{
    lemma_run_len(s, events);
    if events.len() > 0 {
        let e = events[0];
        let s2 = next_state(s, e);
        let rest = events.drop_first();
        lemma_run_unfold(s, events);
        if e is Failed {
            lemma_over_is_silent(s2, rest);
        } else if s.phase is Connecting {
            lemma_push_preceded(s2, rest);
            assert forall|i: int| 0 <= i < events.len() && (#[trigger] run(s, events)[i] is Push) implies exists|j: int|
                0 <= j < i && run(s, events)[j] == Move::Subscribe(s.channel) by {
                assert(i >= 1);
                assert(run(s, events)[i] == run(s2, rest)[i - 1]);
                let j = choose|j: int| 0 <= j < i - 1 && run(s2, rest)[j] == Move::Subscribe(s2.channel);
                assert(run(s, events)[j + 1] == run(s2, rest)[j]);
            }
        } else {
            assert(run(s, events)[0] == Move::Subscribe(s.channel));
        }
    }
}

/// The request is pushed only after the subscription to the reply channel
/// succeeded, so the engine's answer cannot come before anyone listens.
pub proof fn lemma_push_follows_subscribe(channel: Seq<char>, events: Seq<EventView>)
    requires
        accepted(initial(channel), events),
    ensures
        forall|i: int|
            0 <= i < events.len() && (#[trigger] run(initial(channel), events)[i] is Push)
                ==> exists|j: int|
                0 <= j < i && run(initial(channel), events)[j] == Move::Subscribe(channel),
{
    lemma_push_preceded(initial(channel), events);
}

proof fn lemma_no_push_after_pushing(s: ExchangeState, events: Seq<EventView>)
    requires
        accepted(s, events),
        rank(s.phase) >= 3,
    ensures
        forall|i: int| 0 <= i < events.len() ==> !(#[trigger] run(s, events)[i] is Push),
    decreases events.len(),
{
    lemma_run_len(s, events);
    if events.len() > 0 {
        lemma_run_unfold(s, events);
        lemma_no_push_after_pushing(next_state(s, events[0]), events.drop_first());
    }
}

proof fn lemma_push_once(s: ExchangeState, events: Seq<EventView>)
    requires
        accepted(s, events),
    ensures
        forall|i: int, k: int|
            0 <= i < events.len() && 0 <= k < events.len() && (#[trigger] run(s, events)[i] is Push)
                && (#[trigger] run(s, events)[k] is Push) ==> i == k,
    decreases events.len(),
{
    lemma_run_len(s, events);
    if events.len() > 0 {
        let s2 = next_state(s, events[0]);
        let rest = events.drop_first();
        lemma_run_unfold(s, events);
        lemma_push_once(s2, rest);
        if run(s, events)[0] is Push {
            lemma_no_push_after_pushing(s2, rest);
        }
        assert forall|i: int, k: int|
            0 <= i < events.len() && 0 <= k < events.len() && (#[trigger] run(s, events)[i] is Push)
                && (#[trigger] run(s, events)[k] is Push) implies i == k by {
            if i >= 1 {
                assert(run(s, events)[i] == run(s2, rest)[i - 1]);
            }
            if k >= 1 {
                assert(run(s, events)[k] == run(s2, rest)[k - 1]);
            }
        }
    }
}

/// The request is pushed at most once.
pub proof fn lemma_request_pushed_once(channel: Seq<char>, events: Seq<EventView>)
    requires
        accepted(initial(channel), events),
    ensures
        forall|i: int, k: int|
            0 <= i < events.len() && 0 <= k < events.len() && (#[trigger] run(
                initial(channel),
                events,
            )[i] is Push) && (#[trigger] run(initial(channel), events)[k] is Push) ==> i == k,
{
    lemma_push_once(initial(channel), events);
}

proof fn lemma_deliver_source(s: ExchangeState, events: Seq<EventView>)
    requires
        accepted(s, events),
    ensures
        forall|i: int|
            0 <= i < events.len() ==> (#[trigger] run(s, events)[i] matches Move::Deliver(x) ==> (
            exists|j: int| 0 <= j < i && events[j] == EventView::Received(x)) || (i == 0
                && s.phase is Leaving && x == s.payload)),
    decreases events.len(),
{
    lemma_run_len(s, events);
    if events.len() > 0 {
        let s2 = next_state(s, events[0]);
        let rest = events.drop_first();
        lemma_run_unfold(s, events);
        lemma_deliver_source(s2, rest);
        assert forall|i: int| 1 <= i < events.len() implies (#[trigger] run(s, events)[i] matches Move::Deliver(x) ==> (
        exists|j: int| 0 <= j < i && events[j] == EventView::Received(x)) || (i == 0
            && s.phase is Leaving && x == s.payload)) by {
            assert(run(s, events)[i] == run(s2, rest)[i - 1]);
            if let Move::Deliver(x) = run(s, events)[i] {
                if i == 1 && s2.phase is Leaving && x == s2.payload {
                    assert(events[0] == EventView::Received(x));
                } else {
                    let j = choose|j: int| 0 <= j < i - 1 && rest[j] == EventView::Received(x);
                    assert(events[j + 1] == rest[j]);
                }
            }
        }
    }
}

/// The reply handed on is the message received on the reply channel.
pub proof fn lemma_delivers_the_reply(channel: Seq<char>, events: Seq<EventView>)
    requires
        accepted(initial(channel), events),
    ensures
        forall|i: int|
            0 <= i < events.len() ==> (#[trigger] run(initial(channel), events)[i] matches Move::Deliver(x)
                ==> exists|j: int| 0 <= j < i && events[j] == EventView::Received(x)),
{
    lemma_deliver_source(initial(channel), events);
}

/// Once the exchange aborts or delivers, it asks for nothing more.
pub proof fn lemma_abort_and_deliver_end_the_exchange(s: ExchangeState, events: Seq<EventView>)
    requires
        accepted(s, events),
    ensures
        forall|i: int|
            0 <= i < events.len() && (#[trigger] run(s, events)[i] is Abort || run(s, events)[i] is Deliver)
                ==> i == events.len() - 1,
    decreases events.len(),
{
    lemma_run_len(s, events);
    if events.len() > 0 {
        let s2 = next_state(s, events[0]);
        let rest = events.drop_first();
        lemma_run_unfold(s, events);
        lemma_abort_and_deliver_end_the_exchange(s2, rest);
        if run(s, events)[0] is Abort || run(s, events)[0] is Deliver {
            lemma_over_is_silent(s2, rest);
        }
        assert forall|i: int|
            0 <= i < events.len() && (#[trigger] run(s, events)[i] is Abort || run(s, events)[i] is Deliver)
                implies i == events.len() - 1 by {
            if i >= 1 {
                assert(run(s, events)[i] == run(s2, rest)[i - 1]);
            }
        }
    }
}

/// When every call succeeds, the exchange pings, subscribes, pushes,
/// receives, leaves the channel and hands on what it received.
pub proof fn lemma_successful_exchange(channel: Seq<char>, reply: Seq<char>)
    ensures
        ({
            let events = seq![
                EventView::Succeeded,
                EventView::Succeeded,
                EventView::Succeeded,
                EventView::Succeeded,
                EventView::Received(reply),
                EventView::Succeeded,
            ];
            &&& accepted(initial(channel), events)
            &&& run(initial(channel), events) == seq![
                Move::Ping,
                Move::Subscribe(channel),
                Move::Push(channel),
                Move::Receive,
                Move::Unsubscribe(channel),
                Move::Deliver(reply),
            ]
        }),
{
    let events = seq![
        EventView::Succeeded,
        EventView::Succeeded,
        EventView::Succeeded,
        EventView::Succeeded,
        EventView::Received(reply),
        EventView::Succeeded,
    ];
    reveal_with_fuel(accepted, 7);
    reveal_with_fuel(run, 7);
    assert(events.drop_first() =~= events.subrange(1, 6));
    assert(events.drop_first().drop_first() =~= events.subrange(2, 6));
    assert(events.subrange(2, 6).drop_first() =~= events.subrange(3, 6));
    assert(events.subrange(3, 6).drop_first() =~= events.subrange(4, 6));
    assert(events.subrange(4, 6).drop_first() =~= events.subrange(5, 6));
    assert(events.subrange(5, 6).drop_first() =~= Seq::<EventView>::empty());
    assert(run(initial(channel), events) =~= seq![
        Move::Ping,
        Move::Subscribe(channel),
        Move::Push(channel),
        Move::Receive,
        Move::Unsubscribe(channel),
        Move::Deliver(reply),
    ]);
}

/// A random identifier of 26 ASCII letters and digits, for a reply channel.
pub fn get_random_client_id() -> (id: String)
    ensures
        id@.len() == 26,
        forall|i: int| 0 <= i < 26 ==> crate::random_id::is_alphanumeric(#[trigger] id@[i]),
{
    crate::random_id::random_id(26)
}

/// The queue's name.
fn queue_name() -> (q: String)
    ensures
        q@ == request_queue(),
{
    let q = <String as StringExecFns>::from_str("messages");
    proof {
        reveal_strlit("messages");
    }
    q
}

/// One request to the engine in progress.
pub struct EngineExchange {
    phase: ExchangePhase,
    channel: String,
    envelope: Option<MessageWrapper>,
    payload: String,
}

impl EngineExchange {
    pub closed spec fn state(&self) -> ExchangeState {
        ExchangeState { phase: self.phase, channel: self.channel@, payload: self.payload@ }
    }

    /// The wrapped request, until it is pushed.
    pub closed spec fn envelope(&self) -> Option<MessageWrapper> {
        self.envelope
    }

    /// The request is held, wrapped with the reply channel, until it is
    /// pushed, and not after.
    pub closed spec fn wf(&self) -> bool {
        &&& (rank(self.phase) <= 2 ==> self.envelope is Some)
        &&& (3 <= rank(self.phase) <= 6 ==> self.envelope is None)
        &&& (self.envelope matches Some(w) ==> w.client_id@ == self.channel@)
    }

    /// Starts a request on a fresh reply channel; the first call opens the
    /// connections.
    pub fn start(request: EngineRequest) -> (r: (EngineExchange, ExchangeStep))
        ensures
            r.0.wf(),
            r.0.state() == initial(r.0.state().channel),
            r.0.state().channel.len() == 26,
            forall|i: int|
                0 <= i < 26 ==> crate::random_id::is_alphanumeric(#[trigger] r.0.state().channel[i]),
            r.0.envelope() matches Some(w) && w.user_id == request.user_id && w.message
                == request.message,
            r.1 is Connect,
    {
        let channel = get_random_client_id();
        let envelope = MessageWrapper {
            client_id: channel.clone(),
            user_id: request.user_id,
            message: request.message,
        };
        let ex = EngineExchange {
            phase: ExchangePhase::Connecting,
            channel,
            envelope: Some(envelope),
            payload: String::new(),
        };
        (ex, ExchangeStep::Connect)
    }

    /// Whether the exchange can be told `event` now.
    pub fn accepts_event(&self, event: &ExchangeEvent) -> (b: bool)
        ensures
            b == accepts(self.state().phase, event_view(*event)),
    {
        match self.phase {
            ExchangePhase::Delivered | ExchangePhase::Aborted => false,
            ExchangePhase::Waiting => !matches!(event, ExchangeEvent::Succeeded),
            _ => !matches!(event, ExchangeEvent::Received { .. }),
        }
    }

    /// Takes the outcome of the last call and gives the next call. The
    /// request leaves the exchange with the push, and with nothing else.
    pub fn advance(&mut self, event: ExchangeEvent) -> (step: ExchangeStep)
        requires
            old(self).wf(),
            accepts(old(self).state().phase, event_view(event)),
        ensures
            final(self).wf(),
            final(self).state() == next_state(old(self).state(), event_view(event)),
            move_of(step) == next_move(old(self).state(), event_view(event)),
            step matches ExchangeStep::Push { queue, envelope } ==> queue@ == request_queue()
                && old(self).envelope() == Some(envelope),
            !(step is Push) ==> final(self).envelope() == old(self).envelope(),
    {
        match event {
            ExchangeEvent::Failed => {
                self.phase = ExchangePhase::Aborted;
                ExchangeStep::Abort
            },
            ExchangeEvent::Received { payload } => {
                self.phase = ExchangePhase::Leaving;
                self.payload = payload;
                ExchangeStep::Unsubscribe { channel: self.channel.clone() }
            },
            ExchangeEvent::Succeeded => match self.phase {
                ExchangePhase::Connecting => {
                    self.phase = ExchangePhase::Checking;
                    ExchangeStep::Ping
                },
                ExchangePhase::Checking => {
                    self.phase = ExchangePhase::Subscribing;
                    ExchangeStep::Subscribe { channel: self.channel.clone() }
                },
                ExchangePhase::Subscribing => {
                    self.phase = ExchangePhase::Pushing;
                    let envelope = self.envelope.take().unwrap();
                    ExchangeStep::Push { queue: queue_name(), envelope }
                },
                ExchangePhase::Pushing => {
                    self.phase = ExchangePhase::Waiting;
                    ExchangeStep::Receive
                },
                _ => {
                    self.phase = ExchangePhase::Delivered;
                    ExchangeStep::Deliver { payload: self.payload.clone() }
                },
            },
        }
    }
}

} // verus!
