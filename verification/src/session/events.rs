//! The events that come in over the connection of a session.

use vstd::prelude::*;

use crate::consts::{HEADER_SIZE, MAGIC_NUMBER};
use crate::error::Error;
use crate::protocol::event;
use crate::protocol::event::{check_event_valid, EventType, FallbackDataEvent};
use crate::protocol::header;
use crate::protocol::header::Header;
use crate::protocol::negotiation::NegotiatedFeature;
use crate::protocol::wire;
use crate::session::streams::{Route, Session, SessionView};
use crate::stats;
use crate::stats::Stats;
use crate::stream::state::STREAM_OPENED;

verus! {

/// How long an event is that tells of a closed stream.
pub const STREAM_CLOSE_LEN: usize = 12;

/// How long an event with data is before the data.
pub const FALLBACK_HEADER_LEN: usize = 16;

/// An event that came in. `next` is where the one after it begins.
#[derive(Debug)]
pub enum EventStep {
    /// The event is not complete: so many bytes are needed from where it begins.
    Incomplete { required: usize },
    /// The event is refused, and with it the session.
    Refused { next: usize, error: Error },
    /// The peer put something into the queue. Where it is announced here, the queue is to be
    /// drained.
    Polling { next: usize, drain: bool },
    /// The peer closed a stream.
    StreamClose { next: usize, id: u32 },
    /// Data for a stream that came over the connection.
    FallbackData { next: usize, seq_id: u32, status: u32, payload: Vec<u8> },
}

pub enum EventStepView {
    Incomplete { required: int },
    Refused { next: int, error: Error },
    Polling { next: int, drain: bool },
    StreamClose { next: int, id: u32 },
    FallbackData { next: int, seq_id: u32, status: u32, payload: Seq<u8> },
}

impl EventStep {
    pub open spec fn view(&self) -> EventStepView {
        match *self {
            EventStep::Incomplete { required } => EventStepView::Incomplete {
                required: required as int,
            },
            EventStep::Refused { next, error } => EventStepView::Refused {
                next: next as int,
                error,
            },
            EventStep::Polling { next, drain } => EventStepView::Polling {
                next: next as int,
                drain,
            },
            EventStep::StreamClose { next, id } => EventStepView::StreamClose {
                next: next as int,
                id,
            },
            EventStep::FallbackData { next, seq_id, status, payload } => {
                EventStepView::FallbackData { next: next as int, seq_id, status, payload: payload@ }
            },
        }
    }
}

/// The event that begins at `at`.
pub open spec fn event_at(buf: Seq<u8>, at: int, feature: NegotiatedFeature) -> EventStepView {
    let n = buf.len() - at;
    let len = wire::be32_at(buf, at) as int;
    let kind = buf[at + 7];
    if n < HEADER_SIZE {
        EventStepView::Incomplete { required: HEADER_SIZE as int }
    } else if wire::be16_at(buf, at + 4) != MAGIC_NUMBER {
        EventStepView::Refused { next: at + HEADER_SIZE, error: Error::InvalidVersion }
    } else if kind == EventType::TYPE_POLLING {
        EventStepView::Polling { next: at + HEADER_SIZE, drain: feature is NoFeature }
    } else if kind == EventType::TYPE_STREAM_CLOSE {
        if n < STREAM_CLOSE_LEN {
            EventStepView::Incomplete { required: STREAM_CLOSE_LEN as int }
        } else {
            EventStepView::StreamClose {
                next: at + STREAM_CLOSE_LEN,
                id: wire::be32_at(buf, at + 8),
            }
        }
    } else if kind == EventType::TYPE_FALLBACK_DATA {
        if n < len {
            EventStepView::Incomplete { required: len }
        } else {
            EventStepView::FallbackData {
                next: at + len,
                seq_id: wire::be32_at(buf, at + 8),
                status: wire::be32_at(buf, at + 12) & 0xff,
                payload: buf.subrange(at + FALLBACK_HEADER_LEN, at + len),
            }
        }
    } else {
        EventStepView::Refused { next: at + HEADER_SIZE, error: Error::InvalidMsgType }
    }
}

/// An event with data does not claim to be shorter than its own header.
pub open spec fn is_sound(buf: Seq<u8>, at: int) -> bool {
    let n = buf.len() - at;
    let len = wire::be32_at(buf, at) as int;
    n >= HEADER_SIZE && wire::be16_at(buf, at + 4) == MAGIC_NUMBER && buf[at + 7]
        == EventType::TYPE_FALLBACK_DATA ==> {
        &&& len >= HEADER_SIZE
        &&& n >= len ==> len >= FALLBACK_HEADER_LEN
    }
}

/// Whether an event with data does not claim to be shorter than its own header.
pub fn event_is_sound(buf: &[u8], at: usize) -> (r: bool)
    requires
        at <= buf@.len(),
    ensures
        r == is_sound(buf@, at as int),
{
    let n: usize = buf.len() - at;
    if n < HEADER_SIZE {
        return true;
    }
    if wire::get_be16(buf, at + 4) != MAGIC_NUMBER || buf[at + 7] != EventType::TYPE_FALLBACK_DATA {
        return true;
    }
    let len: u32 = wire::get_be32(buf, at);
    len >= 8 && ((n as u64) < len as u64 || len >= 16)
}

/// Reads the event that begins at `at`.
pub fn next_event(buf: &[u8], at: usize, feature: NegotiatedFeature) -> (r: EventStep)
    requires
        at <= buf@.len(),
        is_sound(buf@, at as int),
    ensures
        r.view() == event_at(buf@, at as int, feature),
{
    let n: usize = buf.len() - at;
    if n < HEADER_SIZE {
        return EventStep::Incomplete { required: HEADER_SIZE };
    }
    assert(buf@.len() == buf.len());
    let header: Header = Header::read(buf, at);
    proof {
        let s = buf@.subrange(at as int, at + HEADER_SIZE);
        assert(forall|i: int| 0 <= i < 8 ==> s[i] == buf@[at + i]);
    }
    match check_event_valid(&header) {
        Err(error) => {
            return EventStep::Refused { next: at + HEADER_SIZE, error };
        },
        Ok(_) => {},
    }
    let kind: u8 = header.msg_type().inner();
    if kind == EventType::TYPE_POLLING {
        let drain: bool = match feature {
            NegotiatedFeature::NoFeature => true,
            _ => false,
        };
        return EventStep::Polling { next: at + HEADER_SIZE, drain };
    }
    if kind == EventType::TYPE_STREAM_CLOSE {
        if n < STREAM_CLOSE_LEN {
            return EventStep::Incomplete { required: STREAM_CLOSE_LEN };
        }
        let id: u32 = wire::get_be32(buf, at + 8);
        return EventStep::StreamClose { next: at + STREAM_CLOSE_LEN, id };
    }
    if kind == EventType::TYPE_FALLBACK_DATA {
        let len: usize = header.length() as usize;
        if n < len {
            return EventStep::Incomplete { required: len };
        }
        let seq_id: u32 = wire::get_be32(buf, at + 8);
        let status: u32 = wire::get_be32(buf, at + 12) & 0xff;
        let mut payload: Vec<u8> = Vec::new();
        wire::push_all(
            &mut payload,
            vstd::slice::slice_subrange(buf, at + FALLBACK_HEADER_LEN, at + len),
        );
        assert(payload@ =~= buf@.subrange(at + FALLBACK_HEADER_LEN, at + len));
        return EventStep::FallbackData { next: at + len, seq_id, status, payload };
    }
    EventStep::Refused { next: at + HEADER_SIZE, error: Error::InvalidMsgType }
}

/// What an event means for its session.
#[derive(Clone, Copy, Debug, PartialEq, Eq, Structural)]
pub struct Effect {
    /// The stream that the event is for, where it is for one.
    pub stream: Route,
    /// The session opens no new streams, which has to end after a while.
    pub breaker: bool,
}

impl SessionView {
    /// What an event means for the session.
    pub open spec fn effect(self, e: EventStepView, debug_mode: bool) -> Effect {
        match e {
            EventStepView::StreamClose { id, .. } => Effect {
                stream: if self.streams.contains(id) {
                    Route::Known
                } else {
                    Route::Nowhere
                },
                breaker: false,
            },
            EventStepView::FallbackData { seq_id, status, .. } => Effect {
                stream: self.route(seq_id, status),
                breaker: !debug_mode && !self.unhealthy,
            },
            _ => Effect { stream: Route::Nowhere, breaker: false },
        }
    }

    /// The session after an event.
    pub open spec fn after_event(self, e: EventStepView, debug_mode: bool) -> Self {
        match e {
            EventStepView::Polling { .. } => SessionView {
                stats: Stats {
                    recv_polling_event_count: stats::wrap_add(
                        self.stats.recv_polling_event_count,
                        1,
                    ),
                    ..self.stats
                },
                ..self
            },
            EventStepView::StreamClose { id, .. } => SessionView {
                streams: self.streams.remove(id),
                ..self
            },
            EventStepView::FallbackData { seq_id, status, .. } => SessionView {
                unhealthy: self.unhealthy || !debug_mode,
                stats: Stats {
                    fallback_read_count: stats::wrap_add(self.stats.fallback_read_count, 1),
                    ..self.stats
                },
                streams: if self.route(seq_id, status) is New {
                    self.streams.insert(seq_id)
                } else {
                    self.streams
                },
                ..self
            },
            _ => self,
        }
    }
}

impl Session {
    /// Reads the event that begins at `at` and does what it means for the session. The caller
    /// goes on with the event after it, until one is not complete or is refused.
    pub fn handle_events(&mut self, buf: &[u8], at: usize, debug_mode: bool) -> (r: (
        EventStep,
        Effect,
    ))
        requires
            at <= buf@.len(),
            is_sound(buf@, at as int),
        ensures
            r.0.view() == event_at(buf@, at as int, old(self).initialized.feature),
            r.1 == old(self)@.effect(r.0.view(), debug_mode),
            final(self)@ == old(self)@.after_event(r.0.view(), debug_mode),
    {
        let step = next_event(buf, at, self.initialized.feature);
        let effect: Effect = match &step {
            EventStep::Polling { .. } => {
                self.handle_polling();
                Effect { stream: Route::Nowhere, breaker: false }
            },
            EventStep::StreamClose { id, .. } => {
                let stream: Route = self.handle_stream_close(*id);
                Effect { stream, breaker: false }
            },
            EventStep::FallbackData { seq_id, status, .. } => self.handle_fallback_data(
                *seq_id,
                *status,
                debug_mode,
            ),
            _ => Effect { stream: Route::Nowhere, breaker: false },
        };
        (step, effect)
    }

    /// The peer says that it put something into the queue.
    pub fn handle_polling(&mut self)
        ensures
            final(self)@ == (SessionView {
                stats: Stats {
                    recv_polling_event_count: stats::wrap_add(
                        old(self).stats.recv_polling_event_count,
                        1,
                    ),
                    ..old(self).stats
                },
                ..old(self)@
            }),
    {
        stats::count(&mut self.stats.recv_polling_event_count, 1);
    }

    /// The peer closed a stream: it is no longer one of the session, and is half closed where it
    /// was one.
    pub fn handle_stream_close(&mut self, id: u32) -> (r: Route)
        ensures
            r == if old(self)@.streams.contains(id) {
                Route::Known
            } else {
                Route::Nowhere
            },
            final(self)@ == (SessionView { streams: old(self)@.streams.remove(id), ..old(self)@ }),
    {
        if self.on_stream_close(id) {
            Route::Known
        } else {
            Route::Nowhere
        }
    }

    /// The peer ran out of shared memory and sent data over the connection: it is to be left in
    /// peace for a while.
    pub fn handle_fallback_data(&mut self, seq_id: u32, status: u32, debug_mode: bool) -> (r:
        Effect)
        ensures
            r.stream == old(self)@.route(seq_id, status),
            r.breaker == (!debug_mode && !old(self)@.unhealthy),
            final(self)@ == (SessionView {
                unhealthy: old(self)@.unhealthy || !debug_mode,
                stats: Stats {
                    fallback_read_count: stats::wrap_add(old(self).stats.fallback_read_count, 1),
                    ..old(self).stats
                },
                streams: if r.stream is New {
                    old(self)@.streams.insert(seq_id)
                } else {
                    old(self)@.streams
                },
                ..old(self)@
            }),
    {
        let breaker: bool = self.open_circuit_breaker(debug_mode);
        stats::count(&mut self.stats.fallback_read_count, 1);
        let stream: Route = self.get_stream(seq_id, status);
        Effect { stream, breaker }
    }
}

proof fn lemma_header_bytes(a: Seq<u8>, length: u32, version: u8, kind: u8, b: Seq<u8>)
    ensures
        ({
            let buf = a + header::frame(length, version, kind) + b;
            let n = a.len() as int;
            &&& wire::be32_at(buf, n) == length
            &&& wire::be16_at(buf, n + 4) == MAGIC_NUMBER
            &&& buf[n + 7] == kind
            &&& buf.len() == n + HEADER_SIZE + b.len()
        }),
{
    let buf = a + header::frame(length, version, kind) + b;
    let rest = wire::be16(MAGIC_NUMBER) + seq![version, kind] + b;
    assert(buf =~= a + wire::be32(length) + rest);
    wire::law_numbers_read_back(a, 0, length, rest);
    let c = a + wire::be32(length);
    assert(buf =~= c + wire::be16(MAGIC_NUMBER) + (seq![version, kind] + b));
    wire::law_numbers_read_back(c, MAGIC_NUMBER, 0, seq![version, kind] + b);
    assert(buf[a.len() as int + 7] == kind);
}

/// Reading goes on: the event after one that was read begins behind it and not outside of what
/// came in.
pub proof fn law_events_advance(buf: Seq<u8>, at: int, feature: NegotiatedFeature)
    requires
        0 <= at <= buf.len(),
        is_sound(buf, at),
    ensures
        match event_at(buf, at, feature) {
            EventStepView::Incomplete { required } => buf.len() - at < required,
            EventStepView::Refused { next, .. } => at < next <= buf.len(),
            EventStepView::Polling { next, .. } => at < next <= buf.len(),
            EventStepView::StreamClose { next, .. } => at < next <= buf.len(),
            EventStepView::FallbackData { next, payload, .. } => {
                &&& at < next <= buf.len()
                &&& payload.len() == next - at - FALLBACK_HEADER_LEN
            },
        },
{
}

/// A message that wakes the peer is read as one, and drains the queue unless another wakeup was
/// agreed on.
pub proof fn law_polling_reads_back(
    a: Seq<u8>,
    version: u8,
    b: Seq<u8>,
    feature: NegotiatedFeature,
)
    ensures
        event_at(
            a + header::frame(HEADER_SIZE as u32, version, EventType::TYPE_POLLING) + b,
            a.len() as int,
            feature,
        ) == (EventStepView::Polling {
            next: a.len() + HEADER_SIZE,
            drain: feature is NoFeature,
        }),
{
    lemma_header_bytes(a, HEADER_SIZE as u32, version, EventType::TYPE_POLLING, b);
}

/// A message that tells of a closed stream is read as one.
pub proof fn law_stream_close_reads_back(
    a: Seq<u8>,
    version: u8,
    id: u32,
    b: Seq<u8>,
    feature: NegotiatedFeature,
)
    ensures
        event_at(a + event::close_frame(version, id) + b, a.len() as int, feature) == (
        EventStepView::StreamClose { next: a.len() + STREAM_CLOSE_LEN, id }),
{
    let f = header::frame(12, version, EventType::TYPE_STREAM_CLOSE);
    let buf = a + event::close_frame(version, id) + b;
    assert(buf =~= a + f + (wire::be32(id) + b));
    lemma_header_bytes(a, 12, version, EventType::TYPE_STREAM_CLOSE, wire::be32(id) + b);
    assert(buf =~= (a + f) + wire::be32(id) + b);
    wire::law_numbers_read_back(a + f, 0, id, b);
}

/// Data that goes over the connection arrives: the other side reads the stream, the state and
/// every byte.
pub proof fn law_fallback_data_reads_back(
    a: Seq<u8>,
    version: u8,
    seq_id: u32,
    status: u32,
    payload: Seq<u8>,
    b: Seq<u8>,
    feature: NegotiatedFeature,
)
    requires
        FALLBACK_HEADER_LEN + payload.len() <= u32::MAX,
    ensures
        ({
            let len = (FALLBACK_HEADER_LEN + payload.len()) as u32;
            let buf = a + (event::fallback_frame(len, version, seq_id, status) + payload) + b;
            &&& is_sound(buf, a.len() as int)
            &&& event_at(buf, a.len() as int, feature) == (EventStepView::FallbackData {
                next: a.len() + len,
                seq_id,
                status: status & 0xff,
                payload,
            })
        }),
{
    let len = (FALLBACK_HEADER_LEN + payload.len()) as u32;
    let kind = EventType::TYPE_FALLBACK_DATA;
    let f = header::frame(len, version, kind);
    let buf = a + (event::fallback_frame(len, version, seq_id, status) + payload) + b;
    let n = a.len() as int;
    let rest = wire::be32(seq_id) + wire::be32(status) + payload + b;
    assert(buf =~= a + f + rest);
    lemma_header_bytes(a, len, version, kind, rest);
    let rest = wire::be32(status) + payload + b;
    assert(buf =~= (a + f) + wire::be32(seq_id) + rest);
    wire::law_numbers_read_back(a + f, 0, seq_id, rest);
    let c = a + f + wire::be32(seq_id);
    assert(buf =~= c + wire::be32(status) + (payload + b));
    wire::law_numbers_read_back(c, 0, status, payload + b);
    assert(buf.subrange(n + FALLBACK_HEADER_LEN, n + len) =~= payload);
}

/// Data that came over the connection for a stream of the session goes to that stream. It goes
/// nowhere only where the session does not have the stream and does not open it, and no other
/// stream notices. Such data stops new streams, which exactly the first that does so is told.
pub proof fn law_fallback_data_finds_its_stream(
    s: &mut Session,
    buf: &[u8],
    at: usize,
    debug_mode: bool,
    r: (EventStep, Effect),
)
    requires
        call_ensures(Session::handle_events, (s, buf, at, debug_mode), r),
        r.0 is FallbackData,
    ensures
        ({
            let id = r.0->seq_id;
            let known = old(s)@.streams.contains(id);
            let opens = !known && !old(s).is_client && r.0->status == STREAM_OPENED;
            &&& r.1.stream == Route::Known <==> known
            &&& r.1.stream == Route::New <==> opens
            &&& final(s)@.streams.contains(id) <==> known || opens
            &&& forall|o: u32|
                o != id ==> (#[trigger] final(s)@.streams.contains(o)
                    <==> old(s)@.streams.contains(o))
        }),
        r.1.breaker <==> !debug_mode && !old(s).unhealthy,
        final(s).unhealthy <==> old(s).unhealthy || !debug_mode,
        final(s).stats.fallback_read_count == stats::wrap_add(old(s).stats.fallback_read_count, 1),
        final(s)@.pool == old(s)@.pool,
        final(s).shutdown == old(s).shutdown,
{
    let (a, b) = (*old(s), *final(s));
    assert(b@.unhealthy == b.unhealthy);
    assert(b@.stats == b.stats);
    assert(b@.shutdown == b.shutdown);
}

/// That the peer closed a stream reaches that stream wherever the session has it. The session then
/// has it no longer, and every other stream as before.
pub proof fn law_close_reaches_its_stream(
    s: &mut Session,
    buf: &[u8],
    at: usize,
    debug_mode: bool,
    r: (EventStep, Effect),
)
    requires
        call_ensures(Session::handle_events, (s, buf, at, debug_mode), r),
        r.0 is StreamClose,
    ensures
        r.1.stream == Route::Known <==> old(s)@.streams.contains(r.0->id),
        r.1.stream != Route::New,
        !r.1.breaker,
        !final(s)@.streams.contains(r.0->id),
        forall|o: u32|
            o != r.0->id ==> (#[trigger] final(s)@.streams.contains(o)
                <==> old(s)@.streams.contains(o)),
        final(s)@ == (SessionView { streams: final(s)@.streams, ..old(s)@ }),
{
}

/// A wakeup touches no stream and is counted. What is not complete or is refused leaves the session
/// as it is.
pub proof fn law_other_events_touch_no_stream(
    s: &mut Session,
    buf: &[u8],
    at: usize,
    debug_mode: bool,
    r: (EventStep, Effect),
)
    requires
        call_ensures(Session::handle_events, (s, buf, at, debug_mode), r),
        r.0 is Polling || r.0 is Incomplete || r.0 is Refused,
    ensures
        r.1.stream == Route::Nowhere,
        !r.1.breaker,
        final(s)@.streams == old(s)@.streams,
        final(s)@ == (SessionView { stats: final(s).stats, ..old(s)@ }),
        !(r.0 is Polling) ==> final(s).stats == old(s).stats,
        r.0 is Polling ==> final(s).stats == (Stats {
            recv_polling_event_count: stats::wrap_add(old(s).stats.recv_polling_event_count, 1),
            ..old(s).stats
        }),
{
    assert(final(s)@.stats == final(s).stats);
}

/// What one side sends over the connection for a stream arrives at the other, wherever the message
/// stands among others: the stream that was named, every byte that was sent, and an effect that
/// takes them to that stream where the session has it.
pub proof fn law_sent_data_is_handled(
    head: &mut FallbackDataEvent,
    length: u32,
    version: u8,
    id: u32,
    status: u32,
    payload: Seq<u8>,
    before: Seq<u8>,
    after: Seq<u8>,
    s: &mut Session,
    buf: &[u8],
    at: usize,
    debug_mode: bool,
    r: (EventStep, Effect),
)
    requires
        call_ensures(FallbackDataEvent::encode, (head, length, version, id, status), ()),
        length == 16 + payload.len(),
        status <= 0xff,
        buf@ == before + (final(head).0@ + payload) + after,
        at == before.len(),
        call_ensures(Session::handle_events, (s, buf, at, debug_mode), r),
    ensures
        r.0 is FallbackData,
        r.0->seq_id == id,
        r.0->status == status,
        r.0->payload@ == payload,
        r.0->FallbackData_next == at + 16 + payload.len(),
        old(s)@.streams.contains(id) ==> r.1.stream == Route::Known,
        !old(s)@.streams.contains(id) && !old(s).is_client && status == STREAM_OPENED
            ==> r.1.stream == Route::New,
        old(s)@.streams.contains(id) ==> final(s)@.streams =~= old(s)@.streams,
{
    law_fallback_data_reads_back(
        before,
        version,
        id,
        status,
        payload,
        after,
        old(s).initialized.feature,
    );
    assert(length == (FALLBACK_HEADER_LEN + payload.len()) as u32);
    assert(status & 0xff == status) by (bit_vector)
        requires
            status <= 0xff,
    ;
    assert(r.0.view() is FallbackData);
}

/// What one side sends to close a stream closes that stream at the other, wherever the message
/// stands among others.
pub proof fn law_sent_close_is_handled(
    version: u8,
    id: u32,
    message: Vec<u8>,
    before: Seq<u8>,
    after: Seq<u8>,
    s: &mut Session,
    buf: &[u8],
    at: usize,
    debug_mode: bool,
    r: (EventStep, Effect),
)
    requires
        call_ensures(event::close_event, (version, id), message),
        buf@ == before + message@ + after,
        at == before.len(),
        call_ensures(Session::handle_events, (s, buf, at, debug_mode), r),
    ensures
        r.0 is StreamClose,
        r.0->id == id,
        r.0->StreamClose_next == at + message@.len(),
        r.1.stream == Route::Known <==> old(s)@.streams.contains(id),
        !final(s)@.streams.contains(id),
{
    law_stream_close_reads_back(before, version, id, after, old(s).initialized.feature);
    assert(r.0.view() is StreamClose);
}

/// What wakes the peer over the connection is read as a wakeup, wherever it stands among others. The
/// peer then drains its queue, unless the two agreed on another wakeup.
pub proof fn law_sent_wakeup_is_handled(
    version: u8,
    message: Vec<u8>,
    before: Seq<u8>,
    after: Seq<u8>,
    s: &mut Session,
    buf: &[u8],
    at: usize,
    debug_mode: bool,
    r: (EventStep, Effect),
)
    requires
        call_ensures(event::polling_event_with_version, (version,), message),
        buf@ == before + message@ + after,
        at == before.len(),
        call_ensures(Session::handle_events, (s, buf, at, debug_mode), r),
    ensures
        r.0 is Polling,
        r.0->drain <==> old(s).initialized.feature is NoFeature,
        r.0->Polling_next == at + message@.len(),
        final(s)@.streams == old(s)@.streams,
{
    law_polling_reads_back(before, version, after, old(s).initialized.feature);
    assert(r.0.view() is Polling);
}

/// An event is not taken for complete before its header is there, and one with another magic number
/// or of a type that no session sends is refused; it touches no stream.
pub proof fn law_only_events_are_handled(
    s: &mut Session,
    buf: &[u8],
    at: usize,
    debug_mode: bool,
    r: (EventStep, Effect),
)
    requires
        at <= buf@.len(),
        call_ensures(Session::handle_events, (s, buf, at, debug_mode), r),
    ensures
        buf@.len() - at < 8 ==> r.0 == (EventStep::Incomplete { required: 8 }),
        buf@.len() - at >= 8 && wire::be16_at(buf@, at + 4) != 0x7758 ==> r.0 is Refused
            && r.0->error is InvalidVersion,
        buf@.len() - at >= 8 && wire::be16_at(buf@, at + 4) == 0x7758 && !(1 <= buf@[at + 7] <= 3)
            ==> r.0 is Refused && r.0->error is InvalidMsgType,
        r.0 is Refused ==> r.0->Refused_next == at + 8,
        r.0 is Refused || r.0 is Incomplete ==> final(s)@ == old(s)@,
        r.0 is Polling ==> buf@[at + 7] == 1,
        r.0 is StreamClose ==> buf@[at + 7] == 2 && buf@.len() - at >= 12,
        r.0 is FallbackData ==> buf@[at + 7] == 3 && buf@.len() - at >= wire::be32_at(
            buf@,
            at as int,
        ),
{
    assert(r.0.view() == event_at(buf@, at as int, old(s).initialized.feature));
    assert(old(s)@.stats == old(s).stats);
}

/// An event that is not all there yet is waited for: as many bytes as its header, then as many as
/// its kind or its length asks for. Nothing happens to the session before.
pub proof fn law_event_waits_for_its_bytes(
    s: &mut Session,
    buf: &[u8],
    at: usize,
    debug_mode: bool,
    r: (EventStep, Effect),
)
    requires
        at <= buf@.len(),
        call_ensures(Session::handle_events, (s, buf, at, debug_mode), r),
    ensures
        buf@.len() - at >= 8 && wire::be16_at(buf@, at + 4) == 0x7758 ==> {
            &&& buf@[at + 7] == 2 ==> (r.0 is StreamClose <==> buf@.len() - at >= 12)
            &&& buf@[at + 7] == 2 && buf@.len() - at < 12 ==> r.0 == (EventStep::Incomplete {
                required: 12,
            })
            &&& r.0 is StreamClose ==> r.0->id == wire::be32_at(buf@, at + 8)
                && r.0->StreamClose_next == at + 12
            &&& r.0 is FallbackData && 16 <= wire::be32_at(buf@, at as int) ==> r.0->seq_id
                == wire::be32_at(buf@, at + 8) && r.0->payload@ =~= buf@.subrange(
                at + 16,
                at + wire::be32_at(buf@, at as int),
            )
            &&& buf@[at + 7] == 3 ==> (r.0 is FallbackData <==> buf@.len() - at >= wire::be32_at(
                buf@,
                at as int,
            ))
            &&& buf@[at + 7] == 3 && buf@.len() - at < wire::be32_at(buf@, at as int)
                && wire::be32_at(buf@, at as int) <= usize::MAX ==> r.0 is Incomplete
                && r.0->required == wire::be32_at(buf@, at as int)
        },
        r.0 is Incomplete || r.0 is Refused ==> final(s)@ == old(s)@ && r.1.stream
            == Route::Nowhere && !r.1.breaker,
{
    assert(r.0.view() == event_at(buf@, at as int, old(s).initialized.feature));
}

} // verus!
