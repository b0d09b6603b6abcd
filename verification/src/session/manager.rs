//! The sessions of a client.

use vstd::prelude::*;

use crate::error::Error;

verus! {

/// After so many streams the next session takes its turn.
pub const SESSION_ROUND_ROBIN_THRESHOLD: usize = 32;

/// The session whose turn it is, given how many streams were asked for before.
pub open spec fn turn(count: int, sessions: int) -> int {
    (count + 1) / (SESSION_ROUND_ROBIN_THRESHOLD as int) % sessions
}

/// Whose turn it is among the sessions of a client.
#[derive(Debug)]
pub struct RoundRobin {
    pub sessions: usize,
    /// How many streams were asked for.
    pub count: usize,
}

impl RoundRobin {
    pub fn new(sessions: usize) -> (r: Self)
        ensures
            r == (RoundRobin { sessions, count: 0 }),
    {
        RoundRobin { sessions, count: 0 }
    }

    /// The session that gives the next stream.
    pub fn get_stream(&mut self) -> (r: Result<usize, Error>)
        requires
            old(self).sessions > 0 ==> old(self).count < usize::MAX,
        ensures
            old(self).sessions == 0 ==> r == Err::<usize, Error>(Error::SessionUnhealthy)
                && *final(self) == *old(self),
            old(self).sessions > 0 ==> {
                &&& r is Ok
                &&& r->Ok_0 == turn(old(self).count as int, old(self).sessions as int)
                &&& r->Ok_0 < old(self).sessions
                &&& *final(self) == (RoundRobin {
                    count: (old(self).count + 1) as usize,
                    ..*old(self)
                })
            },
    {
        if self.sessions == 0 {
            return Err(Error::SessionUnhealthy);
        }
        self.count = self.count + 1;
        Ok(self.count / SESSION_ROUND_ROBIN_THRESHOLD % self.sessions)
    }
}

/// What happened to one who keeps a session of a client up.
#[derive(Clone, Copy, Debug, PartialEq, Eq, Structural)]
pub enum RebuildEvent {
    /// The session went down.
    SessionDown,
    /// The client closes all of its sessions.
    ManagerDown,
    /// The wait is over.
    Slept,
    /// A new session has taken the place of the one that went down.
    Rebuilt,
    /// No new session came up.
    Failed,
}

/// What one who keeps a session of a client up does next.
#[derive(Clone, Copy, Debug, PartialEq, Eq, Structural)]
pub enum RebuildAction {
    /// Waits until the session goes down or the client closes all of its sessions.
    Watch,
    /// Waits for the interval between attempts.
    Sleep,
    /// Tries to bring a new session up.
    Connect,
    /// Ends.
    Stop,
}

/// How far one who keeps a session of a client up has come.
#[derive(Clone, Copy, Debug, PartialEq, Eq, Structural)]
pub enum Rebuild {
    Watching,
    Sleeping,
    Connecting,
    Stopped,
}

impl Rebuild {
    /// What is being done.
    pub open spec fn doing(self) -> RebuildAction {
        match self {
            Rebuild::Watching => RebuildAction::Watch,
            Rebuild::Sleeping => RebuildAction::Sleep,
            Rebuild::Connecting => RebuildAction::Connect,
            Rebuild::Stopped => RebuildAction::Stop,
        }
    }

    /// The event is an outcome of what is being done.
    pub open spec fn expects(self, event: RebuildEvent) -> bool {
        match self {
            Rebuild::Watching => event is SessionDown || event is ManagerDown,
            Rebuild::Sleeping => event is Slept,
            Rebuild::Connecting => event is Rebuilt || event is Failed,
            Rebuild::Stopped => false,
        }
    }

    /// What follows an event: the wait after a session went down or an attempt failed, an attempt
    /// after the wait, the watch over the new session, and the end.
    pub open spec fn next(self, event: RebuildEvent) -> (Rebuild, RebuildAction) {
        match event {
            RebuildEvent::SessionDown => (Rebuild::Sleeping, RebuildAction::Sleep),
            RebuildEvent::ManagerDown => (Rebuild::Stopped, RebuildAction::Stop),
            RebuildEvent::Slept => (Rebuild::Connecting, RebuildAction::Connect),
            RebuildEvent::Rebuilt => (Rebuild::Watching, RebuildAction::Watch),
            RebuildEvent::Failed => (Rebuild::Sleeping, RebuildAction::Sleep),
        }
    }

    /// How far it has come after these events, of which each is an outcome of what was being done,
    /// and nothing if one is not.
    pub open spec fn after(self, events: Seq<RebuildEvent>) -> Option<Rebuild>
        decreases events.len(),
    {
        if events.len() == 0 {
            Some(self)
        } else {
            match self.after(events.drop_last()) {
                Some(s) => if s.expects(events.last()) {
                    Some(s.next(events.last()).0)
                } else {
                    None
                },
                None => None,
            }
        }
    }

    /// A session that is up is watched.
    pub fn new() -> (r: (Self, RebuildAction))
        ensures
            r == (Rebuild::Watching, RebuildAction::Watch),
    {
        (Rebuild::Watching, RebuildAction::Watch)
    }

    /// What is done after an event.
    pub fn step(&mut self, event: RebuildEvent) -> (r: RebuildAction)
        requires
            old(self).expects(event),
        ensures
            (*final(self), r) == old(self).next(event),
    {
        match event {
            RebuildEvent::SessionDown | RebuildEvent::Failed => {
                *self = Rebuild::Sleeping;
                RebuildAction::Sleep
            },
            RebuildEvent::ManagerDown => {
                *self = Rebuild::Stopped;
                RebuildAction::Stop
            },
            RebuildEvent::Slept => {
                *self = Rebuild::Connecting;
                RebuildAction::Connect
            },
            RebuildEvent::Rebuilt => {
                *self = Rebuild::Watching;
                RebuildAction::Watch
            },
        }
    }
}

/// Every step names what is then being done. Only while a session is watched does the client's end
/// stop it, nothing else does, and an attempt is made after a wait and never otherwise.
pub proof fn law_rebuilding_stops_only_while_watching(s: Rebuild, event: RebuildEvent)
    requires
        s.expects(event),
    ensures
        s.next(event).1 == s.next(event).0.doing(),
        s.next(event).1 == RebuildAction::Stop <==> event == RebuildEvent::ManagerDown,
        event == RebuildEvent::ManagerDown ==> s == Rebuild::Watching,
        s.next(event).1 == RebuildAction::Connect <==> s == Rebuild::Sleeping,
        s.next(event).1 == RebuildAction::Watch <==> event == RebuildEvent::Rebuilt,
{
}

/// However often an attempt fails, it is made again after one more wait each time, and the new
/// session is watched once one is up.
pub proof fn law_rebuilding_goes_on_until_a_session_is_up(n: nat)
    ensures
        Rebuild::Watching.after(failures(n)) == Some(Rebuild::Connecting),
        Rebuild::Watching.after(failures(n).push(RebuildEvent::Rebuilt)) == Some(
            Rebuild::Watching,
        ),
    decreases n,
{
    let es = failures(n);
    if n == 0 {
        let down = seq![RebuildEvent::SessionDown];
        assert(es =~= down.push(RebuildEvent::Slept));
        assert(es.drop_last() =~= down);
        assert(down.drop_last() =~= Seq::<RebuildEvent>::empty());
        assert(Rebuild::Watching.after(down.drop_last()) == Some(Rebuild::Watching));
        assert(Rebuild::Watching.after(down) == Some(Rebuild::Sleeping));
    } else {
        law_rebuilding_goes_on_until_a_session_is_up((n - 1) as nat);
        let before = failures((n - 1) as nat);
        let failed = before.push(RebuildEvent::Failed);
        assert(es =~= failed.push(RebuildEvent::Slept));
        assert(es.drop_last() =~= failed);
        assert(failed.drop_last() =~= before);
        assert(Rebuild::Watching.after(failed) == Some(Rebuild::Sleeping));
    }
    assert(es.push(RebuildEvent::Rebuilt).drop_last() =~= es);
}

/// A session goes down, and so many attempts at a new one fail; the next one is being made.
pub open spec fn failures(n: nat) -> Seq<RebuildEvent>
    decreases n,
{
    if n == 0 {
        seq![RebuildEvent::SessionDown, RebuildEvent::Slept]
    } else {
        failures((n - 1) as nat) + seq![RebuildEvent::Failed, RebuildEvent::Slept]
    }
}

/// The sessions take turns: as many streams later as one session serves, the next one does.
pub proof fn law_sessions_take_turns(count: int, sessions: int)
    requires
        count >= 0,
        sessions > 0,
    ensures
        turn(count + SESSION_ROUND_ROBIN_THRESHOLD, sessions) == (turn(count, sessions) + 1)
            % sessions,
        turn(count + SESSION_ROUND_ROBIN_THRESHOLD * sessions, sessions) == turn(count, sessions),
{
    let a = (count + 1) / 32;
    assert((count + 32 + 1) / 32 == a + 1);
    vstd::arithmetic::div_mod::lemma_add_mod_noop(a, 1, sessions);
    vstd::arithmetic::div_mod::lemma_add_mod_noop_right(1, a, sessions);
    assert((a + 1) % sessions == (a % sessions + 1) % sessions);
    assert((count + 32 * sessions + 1) / 32 == a + sessions) by (nonlinear_arith)
        requires
            a == (count + 1) / 32,
    ;
    vstd::arithmetic::div_mod::lemma_mod_add_multiples_vanish(a, sessions);
}

/// One who keeps a session up watches it; when it goes down it waits and tries again, as long as
/// attempts fail, and watches the new session once one is up. Only while it watches does the end of
/// the client end it.
pub proof fn law_session_is_brought_up_again(
    fresh: (Rebuild, RebuildAction),
    a: &mut Rebuild,
    b: &mut Rebuild,
    c: &mut Rebuild,
    d: &mut Rebuild,
    e: &mut Rebuild,
    r: (RebuildAction, RebuildAction, RebuildAction, RebuildAction, RebuildAction),
)
    requires
        call_ensures(Rebuild::new, (), fresh),
        *old(a) == fresh.0,
        call_ensures(Rebuild::step, (a, RebuildEvent::SessionDown), r.0),
        *old(b) == *final(a),
        call_ensures(Rebuild::step, (b, RebuildEvent::Slept), r.1),
        *old(c) == *final(b),
        call_ensures(Rebuild::step, (c, RebuildEvent::Failed), r.2),
        *old(d) == *final(b),
        call_ensures(Rebuild::step, (d, RebuildEvent::Rebuilt), r.3),
        *old(e) == *final(d),
        call_ensures(Rebuild::step, (e, RebuildEvent::ManagerDown), r.4),
    ensures
        fresh.1 is Watch,
        r.0 is Sleep,
        r.1 is Connect,
        r.2 is Sleep && *final(c) == *final(a),
        r.3 is Watch && *final(d) == fresh.0,
        r.4 is Stop,
        old(a).expects(RebuildEvent::SessionDown) && old(a).expects(RebuildEvent::ManagerDown),
        old(b).expects(RebuildEvent::Slept) && !old(b).expects(RebuildEvent::ManagerDown),
        old(c).expects(RebuildEvent::Failed) && !old(c).expects(RebuildEvent::ManagerDown),
        old(d).expects(RebuildEvent::Rebuilt),
{
}

/// Each session of a client serves as many streams in a row as any other, and then the next one
/// does: so many calls later than one that went to a session, the call goes to the one after it,
/// around in a circle.
pub proof fn law_streams_are_spread(
    a: &mut RoundRobin,
    b: &mut RoundRobin,
    ra: Result<usize, Error>,
    rb: Result<usize, Error>,
)
    requires
        old(a).sessions > 0,
        old(b).sessions == old(a).sessions,
        old(b).count == old(a).count + 32,
        call_ensures(RoundRobin::get_stream, (a,), ra),
        call_ensures(RoundRobin::get_stream, (b,), rb),
    ensures
        ra is Ok && rb is Ok,
        ra->Ok_0 < old(a).sessions,
        rb->Ok_0 as int == (ra->Ok_0 + 1) % (old(a).sessions as int),
        final(a).count == old(a).count + 1,
        final(a).sessions == old(a).sessions,
        old(a).count < 31 ==> ra->Ok_0 == 0,
{
    law_sessions_take_turns(old(a).count as int, old(a).sessions as int);
    if old(a).count < 31 {
        assert((old(a).count + 1) / 32 == 0);
        vstd::arithmetic::div_mod::lemma_small_mod(0, old(a).sessions as nat);
    }
}

/// Within one turn the session stays the same.
pub proof fn law_turn_is_kept(
    a: &mut RoundRobin,
    b: &mut RoundRobin,
    ra: Result<usize, Error>,
    rb: Result<usize, Error>,
)
    requires
        old(a).sessions > 0,
        *old(b) == *final(a),
        call_ensures(RoundRobin::get_stream, (a,), ra),
        call_ensures(RoundRobin::get_stream, (b,), rb),
        old(a).count + 1 < usize::MAX,
        (old(a).count + 2) % 32 != 0,
    ensures
        rb == ra,
{
    assert((old(a).count + 1) / 32 == (old(a).count + 2) / 32);
}

/// A client without sessions gives no stream.
pub proof fn law_no_session_no_stream(a: &mut RoundRobin, r: Result<usize, Error>)
    requires
        old(a).sessions == 0,
        call_ensures(RoundRobin::get_stream, (a,), r),
    ensures
        r == Err::<usize, Error>(Error::SessionUnhealthy),
        *final(a) == *old(a),
{
}

} // verus!
