//! The streams of a session.

use std::collections::HashSet;

use vstd::prelude::*;

use crate::buffer::manager::BufferManager;
use crate::error::Error;
use crate::protocol::initializer::ProtocolInitialized;
use crate::session::pool::StreamPool;
use crate::stats;
use crate::stats::{Stats, StatsSnapshot};
use crate::stream::state::{Stream, STREAM_OPENED};
use crate::stream::wakeup::Wakeup;

verus! {

broadcast use vstd::std_specs::hash::group_hash_axioms;

/// How long a session that got data over the connection opens no new streams, in seconds.
pub const CIRCUIT_BREAKER_SECS: u64 = 30;

/// A session: which streams it has, and whether it takes new ones.
pub struct Session {
    /// The id of the next stream: odd on the side of the client, even on that of the server.
    pub next_stream_id: u32,
    pub is_client: bool,
    pub initialized: ProtocolInitialized,
    /// The streams that wait to be used again.
    pub pool: StreamPool,
    /// The ids of the streams that data comes in for.
    pub streams: HashSet<u32>,
    pub shutdown: bool,
    pub unhealthy: bool,
    /// Why the session was shut down, until somebody was told.
    pub shutdown_err: Option<Error>,
    pub stats: Stats,
}

/// A session, its collections by their views.
#[verifier::ext_equal]
pub struct SessionView {
    pub next_stream_id: u32,
    pub is_client: bool,
    pub initialized: ProtocolInitialized,
    pub pool: Seq<u32>,
    pub pool_capacity: nat,
    pub streams: Set<u32>,
    pub shutdown: bool,
    pub unhealthy: bool,
    pub shutdown_err: Option<Error>,
    pub stats: Stats,
}

/// What becomes of a stream that is given back.
#[derive(Debug)]
pub enum PutStep {
    /// The pool keeps it.
    Kept,
    /// It cannot be used again, or the pool is full: it is to be closed.
    Close(Error),
    /// It sent over the connection, so it is not used again: it is to be closed.
    CloseFallback,
}

/// Where data belongs.
#[derive(Clone, Copy, Debug, PartialEq, Eq, Structural)]
pub enum Route {
    /// To a stream of the session.
    Known,
    /// To a stream that the peer opened just now.
    New,
    /// To no stream.
    Nowhere,
}

/// The number after the next one, starting over after the largest.
pub open spec fn id_after(id: u32) -> u32 {
    ((id + 2) % 0x1_0000_0000) as u32
}

impl SessionView {
    /// Why no stream is opened.
    pub open spec fn refusal(self) -> Option<Error> {
        if self.shutdown {
            match self.shutdown_err {
                Some(e) => Some(e),
                None => Some(Error::SessionShutdown),
            }
        } else if self.unhealthy {
            Some(Error::SessionUnhealthy)
        } else if self.streams.contains(self.next_stream_id) {
            Some(Error::StreamsExhausted)
        } else {
            None
        }
    }

    /// The session after a stream was asked for.
    pub open spec fn after_open(self) -> Self {
        if self.shutdown {
            SessionView { shutdown_err: None, ..self }
        } else if self.unhealthy {
            self
        } else if self.streams.contains(self.next_stream_id) {
            SessionView { next_stream_id: id_after(self.next_stream_id), ..self }
        } else {
            SessionView {
                next_stream_id: id_after(self.next_stream_id),
                streams: self.streams.insert(self.next_stream_id),
                ..self
            }
        }
    }

    /// What comes of asking for a stream.
    pub open spec fn opened(self) -> Result<u32, Error> {
        match self.refusal() {
            Some(e) => Err(e),
            None => Ok(self.next_stream_id),
        }
    }

    /// The ids of the streams that this side opens are odd for a client and even for a server.
    pub open spec fn wf(self) -> bool {
        self.next_stream_id % 2 == if self.is_client {
            1u32
        } else {
            0u32
        }
    }

    /// Where data for a stream in this state belongs.
    pub open spec fn route(self, id: u32, state: u32) -> Route {
        if self.streams.contains(id) {
            Route::Known
        } else if !self.is_client && state == STREAM_OPENED {
            Route::New
        } else {
            Route::Nowhere
        }
    }
}

/// The first `n` streams of the pool were asked for and found closed.
pub open spec fn passed_over<F: Fn(u32) -> bool>(pool: Seq<u32>, is_open: F, n: int) -> bool {
    &&& 0 <= n <= pool.len()
    &&& forall|i: int| 0 <= i < n ==> call_ensures(is_open, (#[trigger] pool[i],), false)
}

impl Session {
    pub open spec fn view(&self) -> SessionView {
        SessionView {
            next_stream_id: self.next_stream_id,
            is_client: self.is_client,
            initialized: self.initialized,
            pool: self.pool@,
            pool_capacity: self.pool.capacity(),
            streams: self.streams@,
            shutdown: self.shutdown,
            unhealthy: self.unhealthy,
            shutdown_err: self.shutdown_err,
            stats: self.stats,
        }
    }

    /// A session that just came up.
    pub fn new(is_client: bool, initialized: ProtocolInitialized, max_stream_num: usize) -> (r:
        Self)
        requires
            0 < max_stream_num,
            max_stream_num * 16 <= isize::MAX,
        ensures
            r@.wf(),
            r@ == (SessionView {
                next_stream_id: if is_client {
                    1
                } else {
                    2
                },
                is_client,
                initialized,
                pool: Seq::empty(),
                pool_capacity: max_stream_num as nat,
                streams: Set::empty(),
                shutdown: false,
                unhealthy: false,
                shutdown_err: None,
                stats: r.stats,
            }),
            r.stats == (Stats {
                alloc_shm_error_count: 0,
                fallback_write_count: 0,
                fallback_read_count: 0,
                event_conn_error_count: 0,
                queue_full_error_count: 0,
                recv_polling_event_count: 0,
                send_polling_event_count: 0,
                out_flow_bytes: 0,
                in_flow_bytes: 0,
            }),
    {
        let next_stream_id: u32 = if is_client {
            1
        } else {
            2
        };
        Session {
            next_stream_id,
            is_client,
            initialized,
            pool: StreamPool::new(max_stream_num),
            streams: HashSet::new(),
            shutdown: false,
            unhealthy: false,
            shutdown_err: None,
            stats: Stats::default(),
        }
    }

    /// Whether new streams are opened.
    pub fn is_healthy(&self) -> (r: bool)
        ensures
            r == !self.unhealthy,
    {
        !self.unhealthy
    }

    /// Whether the session was shut down.
    pub fn is_closed(&self) -> (r: bool)
        ensures
            r == self.shutdown,
    {
        self.shutdown
    }

    pub fn stats_snapshot(&self) -> (r: StatsSnapshot)
        ensures
            r == (StatsSnapshot {
                alloc_shm_error_count: self.stats.alloc_shm_error_count,
                fallback_write_count: self.stats.fallback_write_count,
                fallback_read_count: self.stats.fallback_read_count,
                event_conn_error_count: self.stats.event_conn_error_count,
                queue_full_error_count: self.stats.queue_full_error_count,
                recv_polling_event_count: self.stats.recv_polling_event_count,
                send_polling_event_count: self.stats.send_polling_event_count,
                out_flow_bytes: self.stats.out_flow_bytes,
                in_flow_bytes: self.stats.in_flow_bytes,
            }),
    {
        self.stats.snapshot()
    }

    /// How the session wakes its peer.
    pub fn wakeup(&self) -> (r: Wakeup)
        ensures
            r.feature == self.initialized.feature,
            r.has_eventfd == (self.initialized.eventfd is Some),
            r.msg_version == self.initialized.msg_version,
    {
        Wakeup {
            feature: self.initialized.feature,
            has_eventfd: self.initialized.eventfd.is_some(),
            msg_version: self.initialized.msg_version,
        }
    }

    /// Opens a stream with a new id.
    pub fn open_stream(&mut self) -> (r: Result<u32, Error>)
        ensures
            r == old(self)@.opened(),
            final(self)@ == old(self)@.after_open(),
            old(self)@.wf() ==> final(self)@.wf(),
            r matches Ok(id) ==> !old(self)@.streams.contains(id),
    {
        if self.shutdown {
            return match self.shutdown_err.take() {
                Some(e) => Err(e),
                None => Err(Error::SessionShutdown),
            };
        }
        if self.unhealthy {
            return Err(Error::SessionUnhealthy);
        }
        let id: u32 = self.next_stream_id;
        self.next_stream_id = id.wrapping_add(2);
        if self.streams.contains(&id) {
            assert(self@ =~= old(self)@.after_open());
            return Err(Error::StreamsExhausted);
        }
        self.streams.insert(id);
        assert(self@ =~= old(self)@.after_open());
        Ok(id)
    }

    /// Takes the first open stream of the pool, or opens one where there is none.
    pub fn get_or_open_stream<F: Fn(u32) -> bool>(&mut self, is_open: F) -> (r: Result<u32, Error>)
        requires
            forall|id: u32| call_requires(is_open, (id,)),
        ensures
            old(self)@.unhealthy ==> {
                &&& r == Err::<u32, Error>(Error::SessionUnhealthy)
                &&& final(self)@ == old(self)@
            },
            !old(self)@.unhealthy ==> exists|n: int|
                {
                    &&& #[trigger] passed_over(old(self)@.pool, is_open, n)
                    &&& if n < old(self)@.pool.len() {
                        &&& call_ensures(is_open, (old(self)@.pool[n],), true)
                        &&& r == Ok::<u32, Error>(old(self)@.pool[n])
                        &&& final(self)@ == (SessionView {
                            pool: old(self)@.pool.skip(n + 1),
                            ..old(self)@
                        })
                    } else {
                        let emptied = SessionView { pool: Seq::empty(), ..old(self)@ };
                        &&& r == emptied.opened()
                        &&& final(self)@ == emptied.after_open()
                    }
                },
            old(self)@.wf() ==> final(self)@.wf(),
    {
        if self.unhealthy {
            return Err(Error::SessionUnhealthy);
        }
        let ghost pool = self.pool@;
        let ghost mut n: int = 0;
        loop
            invariant
                forall|id: u32| call_requires(is_open, (id,)),
                pool == old(self)@.pool,
                !old(self)@.unhealthy,
                passed_over(pool, is_open, n),
                self@ == (SessionView { pool: pool.skip(n), ..old(self)@ }),
            ensures
                n == pool.len(),
                passed_over(pool, is_open, n),
                self@ == (SessionView { pool: Seq::empty(), ..old(self)@ }),
            decreases pool.len() - n,
        {
            match self.pool.pop() {
                Some(id) => {
                    assert(id == pool[n]);
                    let open: bool = is_open(id);
                    assert(pool.skip(n).skip(1) =~= pool.skip(n + 1));
                    if open {
                        assert(self@ =~= (SessionView { pool: pool.skip(n + 1), ..old(self)@ }));
                        return Ok(id);
                    }
                    proof {
                        n = n + 1;
                    }
                    assert(self@ =~= (SessionView { pool: pool.skip(n), ..old(self)@ }));
                },
                None => {
                    assert(self@ =~= (SessionView { pool: Seq::empty(), ..old(self)@ }));
                    break;
                },
            }
        }
        self.open_stream()
    }

    /// What becomes of a stream that is given back.
    pub open spec fn put_step(self, s: Stream) -> PutStep {
        if s.in_fallback_state {
            PutStep::CloseFallback
        } else {
            match s.reset_error() {
                Some(e) => PutStep::Close(e),
                None => if self.pool@.len() < self.pool.capacity() {
                    PutStep::Kept
                } else {
                    PutStep::Close(Error::StreamPoolFull)
                },
            }
        }
    }

    /// Keeps a stream for the next use, or says why it is to be closed.
    pub fn put_or_close_stream(
        &mut self,
        stream: &mut Stream,
        bm: &BufferManager,
        mem: &mut [u8],
    ) -> (r: PutStep)
        requires
            old(stream).wf(*bm, old(mem)@),
        ensures
            r == old(self).put_step(*old(stream)),
            final(self)@ == (SessionView {
                pool: if r is Kept {
                    old(self)@.pool.push(old(stream).id)
                } else {
                    old(self)@.pool
                },
                ..old(self)@
            }),
            final(stream).wf(*bm, final(mem)@),
            final(mem)@.len() == old(mem)@.len(),
            old(stream).evolves(*bm, old(mem)@, *final(stream), final(mem)@),
            final(stream).id == old(stream).id,
            final(stream).session_id == old(stream).session_id,
            final(stream).state == old(stream).state,
            final(stream).incoming(*bm, final(mem)@) == old(stream).incoming(*bm, old(mem)@),
            old(stream).in_fallback_state || old(stream).reset_error() is Some ==> {
                &&& *final(stream) == *old(stream)
                &&& final(mem)@ == old(mem)@
            },
            !old(stream).in_fallback_state && old(stream).reset_error() is None ==> {
                &&& !final(stream).in_fallback_state
                &&& final(stream).pending_data == old(stream).pending_data
                &&& old(stream).reused(*bm, old(mem)@, *final(stream), final(mem)@)
            },
    {
        let ghost s0 = *stream;
        let ghost m0 = mem@;
        proof {
            s0.lemma_evolves_refl(*bm, m0);
        }
        if stream.fallback_state() {
            return PutStep::CloseFallback;
        }
        match stream.reset() {
            Ok(_) => {
                assert(*stream == s0);
                stream.release_read_and_reuse(bm, mem);
                match self.pool.push(stream.stream_id()) {
                    Ok(_) => PutStep::Kept,
                    Err(e) => PutStep::Close(e),
                }
            },
            Err(e) => PutStep::Close(e),
        }
    }

    /// Where data for a stream in this state belongs. A stream that the peer opened just now is
    /// one of the session from then on; whoever waits for streams is to get it.
    pub fn get_stream(&mut self, id: u32, state: u32) -> (r: Route)
        ensures
            r == old(self)@.route(id, state),
            final(self)@ == (SessionView {
                streams: if r is New {
                    old(self)@.streams.insert(id)
                } else {
                    old(self)@.streams
                },
                ..old(self)@
            }),
    {
        if self.streams.contains(&id) {
            return Route::Known;
        }
        if !self.is_client && state == STREAM_OPENED {
            self.streams.insert(id);
            return Route::New;
        }
        Route::Nowhere
    }

    /// Takes a stream out of the session; tells whether it was there.
    pub fn on_stream_close(&mut self, id: u32) -> (r: bool)
        ensures
            r == old(self)@.streams.contains(id),
            final(self)@ == (SessionView { streams: old(self)@.streams.remove(id), ..old(self)@ }),
    {
        self.streams.remove(&id)
    }

    /// Stops opening streams; tells whether that has to end after [`CIRCUIT_BREAKER_SECS`]. With
    /// `debug_mode` streams are always opened.
    pub fn open_circuit_breaker(&mut self, debug_mode: bool) -> (r: bool)
        ensures
            r == (!debug_mode && !old(self)@.unhealthy),
            final(self)@ == (SessionView { unhealthy: old(self)@.unhealthy || r, ..old(self)@ }),
    {
        if debug_mode {
            return false;
        }
        if self.unhealthy {
            return false;
        }
        self.unhealthy = true;
        true
    }

    /// Opens streams again.
    pub fn close_circuit_breaker(&mut self)
        ensures
            final(self)@ == (SessionView { unhealthy: false, ..old(self)@ }),
    {
        self.unhealthy = false;
    }

    /// Shuts the session down. The first time it gives the idle streams, in the order in which
    /// they are to be closed; the other streams of the session are to be closed after them, and
    /// then the shared memory is to be given back.
    pub fn close(&mut self) -> (r: Option<Vec<u32>>)
        ensures
            old(self)@.shutdown ==> r is None && final(self)@ == old(self)@,
            !old(self)@.shutdown ==> {
                &&& r is Some
                &&& r->0@ == old(self)@.pool
                &&& final(self)@ == (SessionView {
                    shutdown: true,
                    pool: Seq::empty(),
                    streams: Set::empty(),
                    ..old(self)@
                })
            },
    {
        if self.shutdown {
            return None;
        }
        self.shutdown = true;
        let idle: Vec<u32> = self.pool.close();
        self.streams.clear();
        assert(self.streams@ =~= Set::empty());
        Some(idle)
    }

    /// Shuts the session down because of an error, which the next one learns who asks for a
    /// stream.
    pub fn exit_err(&mut self, err: Error) -> (r: Option<Vec<u32>>)
        ensures
            ({
                let counted = SessionView {
                    shutdown_err: Some(err),
                    stats: Stats {
                        event_conn_error_count: stats::wrap_add(
                            old(self).stats.event_conn_error_count,
                            1,
                        ),
                        ..old(self).stats
                    },
                    ..old(self)@
                };
                if old(self)@.shutdown {
                    r is None && final(self)@ == counted
                } else {
                    &&& r is Some
                    &&& r->0@ == old(self)@.pool
                    &&& final(self)@ == (SessionView {
                        shutdown: true,
                        pool: Seq::empty(),
                        streams: Set::empty(),
                        ..counted
                    })
                }
            }),
    {
        stats::count(&mut self.stats.event_conn_error_count, 1);
        self.shutdown_err = Some(err);
        self.close()
    }
}

impl SessionView {
    /// Who asks for a stream after the session broke learns why, once; after that, that the
    /// session is shut down.
    pub proof fn law_cause_is_told_once(self, e: Error)
        requires
            self.shutdown,
            self.shutdown_err == Some(e),
        ensures
            self.opened() == Err::<u32, Error>(e),
            self.after_open().opened() == Err::<u32, Error>(Error::SessionShutdown),
    {
    }

    /// The two sides never open streams with the same id.
    pub proof fn law_sides_do_not_collide(client: Self, server: Self)
        requires
            client.wf(),
            server.wf(),
            client.is_client,
            !server.is_client,
            client.opened() is Ok,
            server.opened() is Ok,
        ensures
            client.opened() != server.opened(),
    {
    }

    /// A session takes data for a stream that it opened, until the stream is closed.
    pub proof fn law_opened_stream_is_known(self, state: u32)
        requires
            self.opened() is Ok,
        ensures
            self.after_open().route(self.opened()->Ok_0, state) == Route::Known,
    {
    }
}

/// Data goes to the stream that it names wherever the session has that stream. It goes nowhere only
/// where the session does not have the stream and does not take it as one that the peer opened, and
/// no other stream notices.
pub proof fn law_data_finds_its_stream(s: &mut Session, id: u32, state: u32, r: Route)
    requires
        call_ensures(Session::get_stream, (s, id, state), r),
    ensures
        r == Route::Known <==> old(s)@.streams.contains(id),
        r == Route::New <==> !old(s)@.streams.contains(id) && !old(s).is_client && state
            == STREAM_OPENED,
        final(s)@.streams.contains(id) <==> r != Route::Nowhere,
        forall|o: u32|
            o != id ==> (#[trigger] final(s)@.streams.contains(o) <==> old(s)@.streams.contains(o)),
        final(s)@ == (SessionView { streams: final(s)@.streams, ..old(s)@ }),
{
}

/// A stream that the peer opened is opened once: what follows for it goes to the same stream.
pub proof fn law_peer_opens_a_stream_once(
    s: &mut Session,
    t: &mut Session,
    id: u32,
    state: u32,
    later: u32,
    r: Route,
    q: Route,
)
    requires
        call_ensures(Session::get_stream, (s, id, state), r),
        *old(t) == *final(s),
        call_ensures(Session::get_stream, (t, id, later), q),
        r != Route::Nowhere,
    ensures
        q == Route::Known,
        final(t)@.streams =~= final(s)@.streams,
{
}

/// Where a stream can be opened it is opened, under an id that the session did not have, that is
/// odd for a client and even for a server, and that is two more than the one before. Where it
/// cannot, no stream is added and whoever asks learns why.
pub proof fn law_opens_where_it_can(s: &mut Session, r: Result<u32, Error>)
    requires
        call_ensures(Session::open_stream, (s,), r),
    ensures
        r is Ok <==> !old(s).shutdown && !old(s).unhealthy && !old(s)@.streams.contains(
            old(s).next_stream_id,
        ),
        r matches Ok(id) ==> {
            &&& id == old(s).next_stream_id
            &&& !old(s)@.streams.contains(id)
            &&& forall|o: u32| #[trigger]
                final(s)@.streams.contains(o) <==> o == id || old(s)@.streams.contains(o)
        },
        r is Err ==> final(s)@.streams == old(s)@.streams,
        final(s).next_stream_id as int == if old(s).shutdown || old(s).unhealthy {
            old(s).next_stream_id as int
        } else {
            (old(s).next_stream_id + 2) % 0x1_0000_0000
        },
        old(s).shutdown ==> r == Err::<u32, Error>(
            match old(s).shutdown_err {
                Some(e) => e,
                None => Error::SessionShutdown,
            },
        ) && final(s).shutdown_err is None,
        !old(s).shutdown && old(s).unhealthy ==> r == Err::<u32, Error>(Error::SessionUnhealthy),
        !old(s).shutdown && !old(s).unhealthy && r is Err ==> r->Err_0 is StreamsExhausted,
        final(s)@.pool == old(s)@.pool,
        final(s).shutdown == old(s).shutdown,
        final(s).unhealthy == old(s).unhealthy,
        final(s).is_client == old(s).is_client,
        final(s).stats == old(s).stats,
        final(s).initialized == old(s).initialized,
        !old(s).shutdown ==> final(s).shutdown_err == old(s).shutdown_err,
{
    let (a, b) = (*old(s), *final(s));
    assert(a@.next_stream_id == a.next_stream_id);
    assert(b@.next_stream_id == b.next_stream_id);
    assert(b@.pool == a@.pool);
    assert(b@.shutdown == b.shutdown);
    assert(b@.unhealthy == b.unhealthy);
    assert(b@.is_client == b.is_client);
    assert(b@.stats == b.stats);
    assert(b@.initialized == b.initialized);
    assert(b@.shutdown_err == b.shutdown_err);
}

/// Two streams of a session that are opened one after the other have different ids, and data for
/// either goes to it.
pub proof fn law_opened_streams_differ(
    s: &mut Session,
    t: &mut Session,
    a: u32,
    b: u32,
    u: &mut Session,
    state: u32,
    r: Route,
)
    requires
        call_ensures(Session::open_stream, (s,), Ok(a)),
        *old(t) == *final(s),
        call_ensures(Session::open_stream, (t,), Ok(b)),
        *old(u) == *final(t),
        call_ensures(Session::get_stream, (u, a, state), r),
    ensures
        a != b,
        r == Route::Known,
{
    law_opens_where_it_can(s, Ok(a));
    law_opens_where_it_can(t, Ok(b));
    law_data_finds_its_stream(u, a, state, r);
}

/// Data for a stream that was closed is for nobody at a client. At a server it opens the stream
/// again if it says that the stream is open, and is for nobody otherwise.
pub proof fn law_closed_stream_is_forgotten(
    s: &mut Session,
    t: &mut Session,
    id: u32,
    there: bool,
    state: u32,
    r: Route,
)
    requires
        call_ensures(Session::on_stream_close, (s, id), there),
        *old(t) == *final(s),
        call_ensures(Session::get_stream, (t, id, state), r),
    ensures
        there <==> old(s)@.streams.contains(id),
        !final(s)@.streams.contains(id),
        forall|o: u32|
            o != id ==> (#[trigger] final(s)@.streams.contains(o) <==> old(s)@.streams.contains(o)),
        r != Route::Known,
        old(s).is_client ==> r == Route::Nowhere,
{
    assert(final(s)@.is_client == old(s)@.is_client);
    assert(old(t)@.is_client == old(s)@.is_client);
    law_data_finds_its_stream(t, id, state, r);
}

/// The first idle stream that is open is the one that is used again, however many in front of it
/// were closed in the meantime; those are let go, and the ones behind it stay.
pub proof fn law_first_open_stream_is_used_again<F: Fn(u32) -> bool>(
    s: &mut Session,
    is_open: F,
    n: int,
    r: Result<u32, Error>,
)
    requires
        call_ensures(Session::get_or_open_stream::<F>, (s, is_open), r),
        !old(s).unhealthy,
        0 <= n < old(s)@.pool.len(),
        forall|i: int|
            0 <= i < n ==> !call_ensures(is_open, (#[trigger] old(s)@.pool[i],), true),
        !call_ensures(is_open, (old(s)@.pool[n],), false),
    ensures
        r == Ok::<u32, Error>(old(s)@.pool[n]),
        final(s)@.pool == old(s)@.pool.skip(n + 1),
        final(s)@ == (SessionView { pool: final(s)@.pool, ..old(s)@ }),
{
    let k = choose|k: int|
        {
            &&& #[trigger] passed_over(old(s)@.pool, is_open, k)
            &&& if k < old(s)@.pool.len() {
                &&& call_ensures(is_open, (old(s)@.pool[k],), true)
                &&& r == Ok::<u32, Error>(old(s)@.pool[k])
                &&& final(s)@ == (SessionView { pool: old(s)@.pool.skip(k + 1), ..old(s)@ })
            } else {
                let emptied = SessionView { pool: Seq::empty(), ..old(s)@ };
                &&& r == emptied.opened()
                &&& final(s)@ == emptied.after_open()
            }
        };
    if k < n {
        assert(!call_ensures(is_open, (old(s)@.pool[k],), true));
    }
    if n < k {
        assert(call_ensures(is_open, (old(s)@.pool[n],), false));
    }
}

/// Where no idle stream is open a new one is opened, just as if it had been asked for.
pub proof fn law_opens_one_where_none_is_idle<F: Fn(u32) -> bool>(
    s: &mut Session,
    is_open: F,
    r: Result<u32, Error>,
)
    requires
        call_ensures(Session::get_or_open_stream::<F>, (s, is_open), r),
        !old(s).unhealthy,
        forall|i: int|
            0 <= i < old(s)@.pool.len() ==> !call_ensures(
                is_open,
                (#[trigger] old(s)@.pool[i],),
                true,
            ),
    ensures
        final(s)@.pool.len() == 0,
        r is Ok <==> !old(s).shutdown && !old(s)@.streams.contains(old(s).next_stream_id),
        r matches Ok(id) ==> id == old(s).next_stream_id && final(s)@.streams.contains(id),
        old(s).shutdown && old(s).shutdown_err is None ==> r == Err::<u32, Error>(
            Error::SessionShutdown,
        ),
        old(s).shutdown && old(s).shutdown_err is Some ==> r == Err::<u32, Error>(
            old(s).shutdown_err->0,
        ),
        forall|o: u32|
            o != old(s).next_stream_id ==> (#[trigger] final(s)@.streams.contains(o)
                <==> old(s)@.streams.contains(o)),
{
    let k = choose|k: int|
        {
            &&& #[trigger] passed_over(old(s)@.pool, is_open, k)
            &&& if k < old(s)@.pool.len() {
                &&& call_ensures(is_open, (old(s)@.pool[k],), true)
                &&& r == Ok::<u32, Error>(old(s)@.pool[k])
                &&& final(s)@ == (SessionView { pool: old(s)@.pool.skip(k + 1), ..old(s)@ })
            } else {
                let emptied = SessionView { pool: Seq::empty(), ..old(s)@ };
                &&& r == emptied.opened()
                &&& final(s)@ == emptied.after_open()
            }
        };
    assert(old(s)@.next_stream_id == old(s).next_stream_id);
    assert(old(s)@.shutdown_err == old(s).shutdown_err);
}

/// A session that got data over the connection gives no stream out, neither an idle nor a new one,
/// and keeps what it has.
pub proof fn law_unhealthy_session_gives_no_stream<F: Fn(u32) -> bool>(
    s: &mut Session,
    is_open: F,
    r: Result<u32, Error>,
)
    requires
        call_ensures(Session::get_or_open_stream::<F>, (s, is_open), r),
        old(s).unhealthy,
    ensures
        r == Err::<u32, Error>(Error::SessionUnhealthy),
        final(s)@ == old(s)@,
{
}

/// A stream that is given back is kept if and only if it can serve the next user as a new one
/// would: it is open, everything that came in was read, it never left the shared memory, and there
/// is room. The pool then holds it behind the others.
pub proof fn law_stream_is_kept_where_it_can_be(
    s: &mut Session,
    stream: &mut Stream,
    bm: &BufferManager,
    mem: &mut [u8],
    r: PutStep,
)
    requires
        call_ensures(Session::put_or_close_stream, (s, stream, bm, mem), r),
    ensures
        r is Kept <==> old(stream).state == STREAM_OPENED && old(stream).recv_buf.spec_len() == 0
            && old(stream).pending_data@.len() == 0 && !old(stream).in_fallback_state
            && old(s)@.pool.len() < old(s)@.pool_capacity,
        r is CloseFallback <==> old(stream).in_fallback_state,
        r == PutStep::Close(Error::StreamPoolFull) <==> old(stream).state == STREAM_OPENED
            && old(stream).recv_buf.spec_len() == 0 && old(stream).pending_data@.len() == 0
            && !old(stream).in_fallback_state && old(s)@.pool.len() >= old(s)@.pool_capacity,
        r is Kept ==> final(s)@.pool == old(s)@.pool.push(old(stream).id),
        !(r is Kept) ==> final(s)@.pool == old(s)@.pool,
        final(s)@ == (SessionView { pool: final(s)@.pool, ..old(s)@ }),
        final(stream).id == old(stream).id,
        final(stream).state == old(stream).state,
{
}

/// A stream that was kept is handed out again: it is the next one where no other is idle.
pub proof fn law_kept_stream_comes_back<F: Fn(u32) -> bool>(
    s: &mut Session,
    stream: &mut Stream,
    bm: &BufferManager,
    mem: &mut [u8],
    t: &mut Session,
    is_open: F,
    r: Result<u32, Error>,
)
    requires
        call_ensures(Session::put_or_close_stream, (s, stream, bm, mem), PutStep::Kept),
        old(s)@.pool.len() == 0,
        !old(s).unhealthy,
        *old(t) == *final(s),
        call_ensures(Session::get_or_open_stream::<F>, (t, is_open), r),
        !call_ensures(is_open, (old(stream).id,), false),
    ensures
        r == Ok::<u32, Error>(old(stream).id),
        final(t)@.pool.len() == 0,
        final(t)@.streams == old(s)@.streams,
{
    law_stream_is_kept_where_it_can_be(s, stream, bm, mem, PutStep::Kept);
    assert(old(t)@.unhealthy == old(s)@.unhealthy);
    assert(old(t)@.pool[0] == old(stream).id);
    law_first_open_stream_is_used_again(t, is_open, 0, r);
}

/// Data that came over the connection stops new streams until the breaker is closed, and exactly
/// the one who stopped them is told. With `debug_mode` nothing stops them.
pub proof fn law_breaker_stops_new_streams(
    s: &mut Session,
    debug_mode: bool,
    told: bool,
    t: &mut Session,
    during: Result<u32, Error>,
    u: &mut Session,
)
    requires
        call_ensures(Session::open_circuit_breaker, (s, debug_mode), told),
        *old(t) == *final(s),
        call_ensures(Session::open_stream, (t,), during),
        !old(s).shutdown,
        call_ensures(Session::close_circuit_breaker, (u,), ()),
    ensures
        told <==> !debug_mode && !old(s).unhealthy,
        !debug_mode ==> during == Err::<u32, Error>(Error::SessionUnhealthy),
        !debug_mode ==> final(s).unhealthy,
        debug_mode ==> final(s).unhealthy == old(s).unhealthy,
        final(s)@ == (SessionView { unhealthy: final(s).unhealthy, ..old(s)@ }),
        !final(u).unhealthy,
        final(u)@ == (SessionView { unhealthy: false, ..old(u)@ }),
{
    assert(final(s)@.unhealthy == final(s).unhealthy);
    assert(old(t)@.shutdown == old(s)@.shutdown);
    assert(final(u)@.unhealthy == final(u).unhealthy);
    law_opens_where_it_can(t, during);
}

/// A session is shut down once: the first time every idle stream is given out to be closed, in
/// order, and later nothing is. A session that was shut down has no stream and opens none.
pub proof fn law_session_is_shut_down_once(
    s: &mut Session,
    t: &mut Session,
    u: &mut Session,
    first: Option<Vec<u32>>,
    second: Option<Vec<u32>>,
    r: Result<u32, Error>,
)
    requires
        call_ensures(Session::close, (s,), first),
        *old(t) == *final(s),
        call_ensures(Session::close, (t,), second),
        *old(u) == *final(t),
        call_ensures(Session::open_stream, (u,), r),
    ensures
        first is Some <==> !old(s).shutdown,
        first matches Some(v) ==> v@ == old(s)@.pool && final(s)@.pool.len() == 0
            && final(s)@.streams =~= Set::<u32>::empty(),
        final(s).shutdown,
        second is None,
        r is Err,
{
    assert(final(s)@.shutdown == final(s).shutdown);
    assert(final(t)@.shutdown == final(t).shutdown);
    law_opens_where_it_can(u, r);
}

/// Whoever asks for a stream after a session broke learns what broke it, and the one after that
/// that it is shut down.
pub proof fn law_broken_session_tells_why(
    s: &mut Session,
    e: Error,
    idle: Option<Vec<u32>>,
    t: &mut Session,
    first: Result<u32, Error>,
    u: &mut Session,
    second: Result<u32, Error>,
)
    requires
        call_ensures(Session::exit_err, (s, e), idle),
        *old(t) == *final(s),
        call_ensures(Session::open_stream, (t,), first),
        *old(u) == *final(t),
        call_ensures(Session::open_stream, (u,), second),
    ensures
        first == Err::<u32, Error>(e),
        second == Err::<u32, Error>(Error::SessionShutdown),
        idle is Some <==> !old(s).shutdown,
        idle matches Some(v) ==> v@ == old(s)@.pool,
        final(s).stats.event_conn_error_count == stats::wrap_add(
            old(s).stats.event_conn_error_count,
            1,
        ),
{
    assert(final(s)@.shutdown_err == final(s).shutdown_err);
    assert(final(s)@.shutdown == final(s).shutdown);
    assert(final(s)@.stats == final(s).stats);
    law_opens_where_it_can(t, first);
    law_opens_where_it_can(u, second);
}

/// What wakes the peer of a session is what the two agreed on.
pub proof fn law_session_wakes_as_agreed(s: Session, r: Wakeup)
    requires
        call_ensures(Session::wakeup, (&s,), r),
    ensures
        r.feature == s.initialized.feature,
        r.has_eventfd <==> s.initialized.eventfd is Some,
        r.msg_version == s.initialized.msg_version,
{
}

/// A new session has no stream, opens the first one at once, and counts nothing yet.
pub proof fn law_new_session_opens_streams(
    is_client: bool,
    initialized: ProtocolInitialized,
    max_stream_num: usize,
    s: &mut Session,
    r: Result<u32, Error>,
)
    requires
        call_ensures(Session::new, (is_client, initialized, max_stream_num), *old(s)),
        call_ensures(Session::open_stream, (s,), r),
    ensures
        r == Ok::<u32, Error>(
            if is_client {
                1
            } else {
                2
            },
        ),
        old(s)@.streams =~= Set::<u32>::empty(),
        old(s)@.pool.len() == 0,
        old(s)@.pool_capacity == max_stream_num,
        old(s).is_client == is_client,
        old(s).initialized == initialized,
{
    let a = *old(s);
    assert(a@.shutdown == a.shutdown);
    assert(a@.unhealthy == a.unhealthy);
    assert(a@.next_stream_id == a.next_stream_id);
    assert(a@.is_client == a.is_client);
    assert(a@.initialized == a.initialized);
    law_opens_where_it_can(s, r);
}

/// A session tells of itself what is so: whether it takes new streams, whether it was shut down, and
/// what it counted.
pub proof fn law_session_tells_its_state(
    s: Session,
    healthy: bool,
    closed: bool,
    counts: StatsSnapshot,
)
    requires
        call_ensures(Session::is_healthy, (&s,), healthy),
        call_ensures(Session::is_closed, (&s,), closed),
        call_ensures(Session::stats_snapshot, (&s,), counts),
    ensures
        healthy <==> !s.unhealthy,
        closed <==> s.shutdown,
        counts.out_flow_bytes == s.stats.out_flow_bytes,
        counts.in_flow_bytes == s.stats.in_flow_bytes,
        counts.fallback_read_count == s.stats.fallback_read_count,
        counts.fallback_write_count == s.stats.fallback_write_count,
        counts.queue_full_error_count == s.stats.queue_full_error_count,
        counts.recv_polling_event_count == s.stats.recv_polling_event_count,
        counts.send_polling_event_count == s.stats.send_polling_event_count,
        counts.alloc_shm_error_count == s.stats.alloc_shm_error_count,
        counts.event_conn_error_count == s.stats.event_conn_error_count,
{
}

} // verus!
