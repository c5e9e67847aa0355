//! The control channel's decisions: what each inbound frame leads to, and
//! the connect / retry / reconnect state machine with its backoff schedule.
//! The surrounding runtime owns the socket; it feeds events in and carries
//! the returned actions out, so everything decided here is verified.

use vstd::prelude::*;

use crate::codec::encode_response;
use crate::codec::request_json;
use crate::codec::response_json;
use crate::messages::AgentResponse;
use crate::messages::AgentResponsePayload;
use crate::messages::ControllerRequest;
use crate::messages::ControllerRequestView;
use crate::messages::SENTINEL_ID;
use crate::parser::parse_request;

verus! {

/// One inbound transport frame, as the runtime hands it over: text and
/// binary payloads, the keep-alive pair, a close, or a frame the transport
/// itself flagged as malformed.
pub enum Frame {
    Text(String),
    Binary(Vec<u8>),
    Ping(Vec<u8>),
    Pong(Vec<u8>),
    Close,
    Malformed,
}

/// What one frame leads to: hand a parsed request on for dispatch, send a
/// reply on the shared sink, answer a ping, do nothing, or end the connected
/// phase.
pub enum FrameOutcome {
    Dispatch(ControllerRequest),
    Reply(AgentResponse),
    Pong(Vec<u8>),
    Ignore,
    Terminate,
}

/// Decide what one inbound frame leads to:
/// - a text frame that is the encoding of a request is dispatched;
/// - any other text frame is answered by exactly one failure reply carrying
///   the sentinel id, and the connection stays up;
/// - a ping is answered by exactly one pong with the identical payload;
/// - binary frames, pongs and malformed frames are ignored;
/// - a close frame ends the connected phase.
pub fn handle_frame(frame: Frame) -> (out: FrameOutcome)
    ensures
        match frame {
            Frame::Text(s) => {
                &&& (forall|rv: ControllerRequestView| s@ != request_json(rv)) ==> (
                out matches FrameOutcome::Reply(r) && r.id == SENTINEL_ID && !r.ok
                    && r.payload is Empty)
                &&& (exists|rv: ControllerRequestView| s@ == request_json(rv)) ==> (
                out matches FrameOutcome::Dispatch(req) && s@ == request_json(req@))
            },
            Frame::Ping(p) => out matches FrameOutcome::Pong(q) && q@ == p@,
            Frame::Binary(_) => out is Ignore,
            Frame::Pong(_) => out is Ignore,
            Frame::Close => out is Terminate,
            Frame::Malformed => out is Ignore,
        },
{
    match frame {
        Frame::Text(s) => {
            match parse_request(s.as_str()) {
                Some(req) => FrameOutcome::Dispatch(req),
                None => FrameOutcome::Reply(AgentResponse::sentinel()),
            }
        },
        Frame::Ping(p) => FrameOutcome::Pong(p),
        Frame::Binary(_) => FrameOutcome::Ignore,
        Frame::Pong(_) => FrameOutcome::Ignore,
        Frame::Close => FrameOutcome::Terminate,
        Frame::Malformed => FrameOutcome::Ignore,
    }
}

/// Build the text frame that answers a request: the encoded response with
/// the given id, success flag and payload. One call, one whole frame.
pub fn respond_frame(id: u64, ok: bool, payload: AgentResponsePayload) -> (out: String)
    ensures
        out@ == response_json(crate::messages::AgentResponseView { id, ok, payload: payload@ }),
{
    let r = AgentResponse { id, ok, payload };
    encode_response(&r)
}

// ---------------------------------------------------------------------------
// Backoff
// ---------------------------------------------------------------------------

/// How many connection attempts are made before the attempt counter wraps
/// around to zero.
pub const MAX_ATTEMPTS: u8 = 5;

/// `3^n`.
pub open spec fn pow3(n: nat) -> nat
    decreases n,
{
    if n == 0 {
        1
    } else {
        3 * pow3((n - 1) as nat)
    }
}

/// `2^n`.
pub open spec fn pow2(n: nat) -> nat
    decreases n,
{
    if n == 0 {
        1
    } else {
        2 * pow2((n - 1) as nat)
    }
}

/// The delay before retrying after failed attempt `r`, in whole seconds:
/// `1.5^r * 3 + 5` truncated to seconds, which over the integers is
/// `3^(r+1) / 2^r + 5`.
pub open spec fn backoff_formula(r: nat) -> nat {
    pow3(r + 1) / pow2(r) + 5
}

/// The powers involved in the backoff schedule are small.
pub proof fn lemma_pow_bounds(n: nat)
    requires
        n <= 5,
    ensures
        pow3(n) <= 243,
        1 <= pow2(n) <= 32,
{
    reveal_with_fuel(pow3, 6);
    reveal_with_fuel(pow2, 6);
    if n == 0 {
    } else if n == 1 {
    } else if n == 2 {
    } else if n == 3 {
    } else if n == 4 {
    } else {
        assert(n == 5);
    }
}

/// Compute the backoff delay for attempt `r`.
pub fn backoff_secs(r: u8) -> (d: u64)
    requires
        r < MAX_ATTEMPTS,
    ensures
        d == backoff_formula(r as nat),
{
    let mut p3: u64 = 3;
    let mut p2: u64 = 1;
    let mut k: u8 = 0;
    proof {
        reveal_with_fuel(pow3, 2);
        reveal_with_fuel(pow2, 2);
    }
    while k < r
        invariant
            k <= r < 5,
            p3 == pow3((k + 1) as nat),
            p2 == pow2(k as nat),
        decreases r - k,
    {
        proof {
            lemma_pow_bounds((k + 1) as nat);
            lemma_pow_bounds(k as nat);
        }
        p3 = p3 * 3;
        p2 = p2 * 2;
        k = k + 1;
    }
    proof {
        lemma_pow_bounds(k as nat);
    }
    p3 / p2 + 5
}

/// The concrete backoff schedule: attempts 0 through 4 wait 8, 9, 11, 15 and
/// 20 whole seconds.
pub proof fn lemma_backoff_schedule()
    ensures
        backoff_formula(0) == 8,
        backoff_formula(1) == 9,
        backoff_formula(2) == 11,
        backoff_formula(3) == 15,
        backoff_formula(4) == 20,
{
    reveal_with_fuel(pow3, 6);
    reveal_with_fuel(pow2, 6);
    assert(pow3(1) == 3 && pow2(0) == 1);
    assert(pow3(2) == 9 && pow2(1) == 2);
    assert(pow3(3) == 27 && pow2(2) == 4);
    assert(pow3(4) == 81 && pow2(3) == 8);
    assert(pow3(5) == 243 && pow2(4) == 16);
}

// ---------------------------------------------------------------------------
// Connection state machine
// ---------------------------------------------------------------------------

/// Where the channel stands: trying to connect (with the current attempt
/// number) or connected.
pub enum ChannelState {
    Connecting { attempt: u8 },
    Connected,
}

/// What the runtime reports back: a connection attempt succeeded or failed,
/// a frame arrived, or the inbound stream ended.
pub enum ChannelEvent {
    ConnectOk,
    ConnectFailed,
    FrameIn(Frame),
    StreamEnded,
}

/// What the runtime must do next.
pub enum ChannelAction {
    Connect,
    SleepThenConnect(u64),
    AwaitFrame,
    Dispatch(ControllerRequest),
    Reply(AgentResponse),
    Pong(Vec<u8>),
}

/// The attempt counter stays below the retry bound.
pub open spec fn state_wf(s: ChannelState) -> bool {
    match s {
        ChannelState::Connecting { attempt } => attempt < MAX_ATTEMPTS,
        ChannelState::Connected => true,
    }
}

/// `event` is one the runtime can report in state `s`.
pub open spec fn event_fits(s: ChannelState, event: ChannelEvent) -> bool {
    match s {
        ChannelState::Connecting { .. } => event is ConnectOk || event is ConnectFailed,
        ChannelState::Connected => event matches ChannelEvent::FrameIn(_) || event is StreamEnded,
    }
}

/// One step of the channel: from the current state and an event to the next
/// state and the action to carry out.
/// - A failed attempt `r` sleeps `backoff_formula(r)` seconds and moves to
///   attempt `(r + 1) % 5`: after five failures the counter wraps to zero, and
///   a fresh connected phase always restarts it at zero.
/// - A successful attempt enters the connected phase.
/// - While connected, frames decide as `handle_frame` does; a close frame or
///   the end of the stream leaves the connected phase and reconnects at
///   attempt zero.
pub fn channel_step(state: ChannelState, event: ChannelEvent) -> (r: (ChannelState, ChannelAction))
    requires
        state_wf(state),
        event_fits(state, event),
    ensures
        state_wf(r.0),
        match state {
            ChannelState::Connecting { attempt } => {
                &&& event is ConnectFailed ==> r.0 == (ChannelState::Connecting {
                    attempt: ((attempt + 1) % (MAX_ATTEMPTS as int)) as u8,
                }) && (r.1 matches ChannelAction::SleepThenConnect(d) && d == backoff_formula(
                    attempt as nat,
                ))
                &&& event is ConnectOk ==> r.0 is Connected && r.1 is AwaitFrame
            },
            ChannelState::Connected => {
                &&& event is StreamEnded ==> r.0 == (ChannelState::Connecting { attempt: 0u8 })
                    && r.1 is Connect
                &&& (event matches ChannelEvent::FrameIn(f) ==> match f {
                    Frame::Text(s) => {
                        &&& (forall|rv: ControllerRequestView| s@ != request_json(rv)) ==> r.0
                            is Connected && (r.1 matches ChannelAction::Reply(resp) && resp.id
                            == SENTINEL_ID && !resp.ok && resp.payload is Empty)
                        &&& (exists|rv: ControllerRequestView| s@ == request_json(rv)) ==> r.0
                            is Connected && (r.1 matches ChannelAction::Dispatch(req) && s@
                            == request_json(req@))
                    },
                    Frame::Ping(p) => r.0 is Connected && (
                    r.1 matches ChannelAction::Pong(q) && q@ == p@),
                    Frame::Binary(_) => r.0 is Connected && r.1 is AwaitFrame,
                    Frame::Pong(_) => r.0 is Connected && r.1 is AwaitFrame,
                    Frame::Close => r.0 == (ChannelState::Connecting { attempt: 0u8 })
                        && r.1 is Connect,
                    Frame::Malformed => r.0 is Connected && r.1 is AwaitFrame,
                })
            },
        },
{
    match (state, event) {
        (ChannelState::Connecting { attempt }, ChannelEvent::ConnectFailed) => {
            let d = backoff_secs(attempt);
            (
                ChannelState::Connecting { attempt: (attempt + 1) % MAX_ATTEMPTS },
                ChannelAction::SleepThenConnect(d),
            )
        },
        (ChannelState::Connecting { .. }, _) => (ChannelState::Connected, ChannelAction::AwaitFrame),
        (ChannelState::Connected, ChannelEvent::FrameIn(f)) => {
            match handle_frame(f) {
                FrameOutcome::Dispatch(req) => (ChannelState::Connected, ChannelAction::Dispatch(
                    req,
                )),
                FrameOutcome::Reply(resp) => (ChannelState::Connected, ChannelAction::Reply(resp)),
                FrameOutcome::Pong(p) => (ChannelState::Connected, ChannelAction::Pong(p)),
                FrameOutcome::Ignore => (ChannelState::Connected, ChannelAction::AwaitFrame),
                FrameOutcome::Terminate => (
                    ChannelState::Connecting { attempt: 0 },
                    ChannelAction::Connect,
                ),
            }
        },
        (ChannelState::Connected, _) => (
            ChannelState::Connecting { attempt: 0 },
            ChannelAction::Connect,
        ),
    }
}

// ---------------------------------------------------------------------------
// The serialized write path
// ---------------------------------------------------------------------------

/// The character stream that a sequence of whole frames puts on the wire:
/// each frame's text, one after the other.
pub open spec fn stream_of(frames: Seq<Seq<char>>) -> Seq<char>
    decreases frames.len(),
{
    if frames.len() == 0 {
        Seq::empty()
    } else {
        stream_of(frames.drop_last()) + frames.last()
    }
}

/// The model of the exclusive outbound write path: a log of the whole frames
/// written, in order. Every write appends exactly one complete frame, so the
/// wire stream is always a concatenation of whole frames and two concurrent
/// responses can never interleave their bytes.
pub struct OutboundLog {
    frames: Vec<String>,
}

impl View for OutboundLog {
    type V = Seq<Seq<char>>;

    closed spec fn view(&self) -> Seq<Seq<char>> {
        self.frames.deep_view()
    }
}

impl OutboundLog {
    /// An empty log: nothing written yet.
    pub fn new() -> (log: OutboundLog)
        ensures
            log@ == Seq::<Seq<char>>::empty(),
    {
        let log = OutboundLog { frames: Vec::new() };
        proof {
            assert(log@ =~= Seq::<Seq<char>>::empty());
        }
        log
    }

    /// The frames written so far, whole and in order.
    pub fn frames(&self) -> (r: &Vec<String>)
        ensures
            r.deep_view() == self@,
    {
        &self.frames
    }

    /// Write one whole frame: the log grows by exactly that frame and the
    /// wire stream by exactly its characters.
    pub fn send(&mut self, frame: String)
        ensures
            final(self)@ == old(self)@.push(frame@),
            stream_of(final(self)@) == stream_of(old(self)@) + frame@,
    {
        let ghost pre = self@;
        self.frames.push(frame);
        proof {
            assert(self@ =~= pre.push(frame@));
            assert(self@.drop_last() =~= pre);
        }
    }
}

/// Writes are never interleaved: however two whole frames are ordered by the
/// write guard, the wire stream holds the first frame's characters
/// contiguously, then the second's — never a byte of one inside the other.
pub proof fn lemma_writes_not_interleaved(frames: Seq<Seq<char>>, a: Seq<char>, b: Seq<char>)
    ensures
        stream_of(frames.push(a).push(b)) == stream_of(frames) + a + b,
        stream_of(frames.push(b).push(a)) == stream_of(frames) + b + a,
{
    assert(frames.push(a).drop_last() =~= frames);
    assert(stream_of(frames.push(a)) == stream_of(frames) + a);
    assert(frames.push(a).push(b).drop_last() =~= frames.push(a));
    assert(stream_of(frames.push(a).push(b)) == stream_of(frames.push(a)) + b);
    assert(frames.push(b).drop_last() =~= frames);
    assert(stream_of(frames.push(b)) == stream_of(frames) + b);
    assert(frames.push(b).push(a).drop_last() =~= frames.push(b));
    assert(stream_of(frames.push(b).push(a)) == stream_of(frames.push(b)) + a);
}

} // verus!
