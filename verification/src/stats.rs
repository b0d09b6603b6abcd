//! Counters of a session.

use vstd::prelude::*;

verus! {

/// The running counters of a session. Each starts over after the largest number.
#[derive(Clone, Copy, Debug, PartialEq, Eq, Structural)]
pub struct Stats {
    pub alloc_shm_error_count: u64,
    pub fallback_write_count: u64,
    pub fallback_read_count: u64,
    pub event_conn_error_count: u64,
    pub queue_full_error_count: u64,
    pub recv_polling_event_count: u64,
    pub send_polling_event_count: u64,
    pub out_flow_bytes: u64,
    pub in_flow_bytes: u64,
}

/// The counters at one moment.
#[derive(Clone, Copy, Debug, PartialEq, Eq, Structural)]
pub struct StatsSnapshot {
    pub alloc_shm_error_count: u64,
    pub fallback_write_count: u64,
    pub fallback_read_count: u64,
    pub event_conn_error_count: u64,
    pub queue_full_error_count: u64,
    pub recv_polling_event_count: u64,
    pub send_polling_event_count: u64,
    pub out_flow_bytes: u64,
    pub in_flow_bytes: u64,
}

/// The difference, or zero where it would be negative.
pub open spec fn sat_sub(a: u64, b: u64) -> u64 {
    if a >= b {
        (a - b) as u64
    } else {
        0
    }
}

/// The sum, or the largest number where it would be larger.
pub open spec fn sat_add(a: u64, b: u64) -> u64 {
    if a + b <= u64::MAX {
        (a + b) as u64
    } else {
        u64::MAX
    }
}

/// The sum, starting over after the largest number.
pub open spec fn wrap_add(a: u64, b: u64) -> u64 {
    if a + b <= u64::MAX {
        (a + b) as u64
    } else {
        (a + b - 0x1_0000_0000_0000_0000) as u64
    }
}

/// Adds to a counter.
pub fn count(counter: &mut u64, n: u64)
    ensures
        *final(counter) == wrap_add(*old(counter), n),
{
    *counter = (*counter).wrapping_add(n);
}

impl Default for Stats {
    fn default() -> (r: Self)
        ensures
            r == (Stats {
                alloc_shm_error_count: 0,
                fallback_write_count: 0,
                fallback_read_count: 0,
                event_conn_error_count: 0,
                queue_full_error_count: 0,
                recv_polling_event_count: 0,
                send_polling_event_count: 0,
                out_flow_bytes: 0,
                in_flow_bytes: 0,
            }),
    {
        Stats {
            alloc_shm_error_count: 0,
            fallback_write_count: 0,
            fallback_read_count: 0,
            event_conn_error_count: 0,
            queue_full_error_count: 0,
            recv_polling_event_count: 0,
            send_polling_event_count: 0,
            out_flow_bytes: 0,
            in_flow_bytes: 0,
        }
    }
}

impl Default for StatsSnapshot {
    fn default() -> (r: Self)
        ensures
            r == Self::zero(),
    {
        StatsSnapshot {
            alloc_shm_error_count: 0,
            fallback_write_count: 0,
            fallback_read_count: 0,
            event_conn_error_count: 0,
            queue_full_error_count: 0,
            recv_polling_event_count: 0,
            send_polling_event_count: 0,
            out_flow_bytes: 0,
            in_flow_bytes: 0,
        }
    }
}

impl Stats {
    /// The counters as they are now.
    pub fn snapshot(&self) -> (r: StatsSnapshot)
        ensures
            r == (StatsSnapshot {
                alloc_shm_error_count: self.alloc_shm_error_count,
                fallback_write_count: self.fallback_write_count,
                fallback_read_count: self.fallback_read_count,
                event_conn_error_count: self.event_conn_error_count,
                queue_full_error_count: self.queue_full_error_count,
                recv_polling_event_count: self.recv_polling_event_count,
                send_polling_event_count: self.send_polling_event_count,
                out_flow_bytes: self.out_flow_bytes,
                in_flow_bytes: self.in_flow_bytes,
            }),
    {
        StatsSnapshot {
            alloc_shm_error_count: self.alloc_shm_error_count,
            fallback_write_count: self.fallback_write_count,
            fallback_read_count: self.fallback_read_count,
            event_conn_error_count: self.event_conn_error_count,
            queue_full_error_count: self.queue_full_error_count,
            recv_polling_event_count: self.recv_polling_event_count,
            send_polling_event_count: self.send_polling_event_count,
            out_flow_bytes: self.out_flow_bytes,
            in_flow_bytes: self.in_flow_bytes,
        }
    }
}

impl StatsSnapshot {
    /// All counters at zero.
    pub open spec fn zero() -> Self {
        StatsSnapshot {
            alloc_shm_error_count: 0,
            fallback_write_count: 0,
            fallback_read_count: 0,
            event_conn_error_count: 0,
            queue_full_error_count: 0,
            recv_polling_event_count: 0,
            send_polling_event_count: 0,
            out_flow_bytes: 0,
            in_flow_bytes: 0,
        }
    }

    /// `f` of each counter and its counterpart.
    pub open spec fn zip(self, rhs: Self, f: spec_fn(u64, u64) -> u64) -> Self {
        StatsSnapshot {
            alloc_shm_error_count: f(self.alloc_shm_error_count, rhs.alloc_shm_error_count),
            fallback_write_count: f(self.fallback_write_count, rhs.fallback_write_count),
            fallback_read_count: f(self.fallback_read_count, rhs.fallback_read_count),
            event_conn_error_count: f(self.event_conn_error_count, rhs.event_conn_error_count),
            queue_full_error_count: f(self.queue_full_error_count, rhs.queue_full_error_count),
            recv_polling_event_count: f(
                self.recv_polling_event_count,
                rhs.recv_polling_event_count,
            ),
            send_polling_event_count: f(
                self.send_polling_event_count,
                rhs.send_polling_event_count,
            ),
            out_flow_bytes: f(self.out_flow_bytes, rhs.out_flow_bytes),
            in_flow_bytes: f(self.in_flow_bytes, rhs.in_flow_bytes),
        }
    }

    /// How far each counter is past that of `rhs`.
    pub fn saturating_sub(self, rhs: Self) -> (r: Self)
        ensures
            r == self.zip(rhs, |a: u64, b: u64| sat_sub(a, b)),
    {
        StatsSnapshot {
            alloc_shm_error_count: self.alloc_shm_error_count.saturating_sub(
                rhs.alloc_shm_error_count,
            ),
            fallback_write_count: self.fallback_write_count.saturating_sub(
                rhs.fallback_write_count,
            ),
            fallback_read_count: self.fallback_read_count.saturating_sub(rhs.fallback_read_count),
            event_conn_error_count: self.event_conn_error_count.saturating_sub(
                rhs.event_conn_error_count,
            ),
            queue_full_error_count: self.queue_full_error_count.saturating_sub(
                rhs.queue_full_error_count,
            ),
            recv_polling_event_count: self.recv_polling_event_count.saturating_sub(
                rhs.recv_polling_event_count,
            ),
            send_polling_event_count: self.send_polling_event_count.saturating_sub(
                rhs.send_polling_event_count,
            ),
            out_flow_bytes: self.out_flow_bytes.saturating_sub(rhs.out_flow_bytes),
            in_flow_bytes: self.in_flow_bytes.saturating_sub(rhs.in_flow_bytes),
        }
    }

    /// Adds each counter of `rhs`.
    pub fn add_assign(&mut self, rhs: Self)
        ensures
            *final(self) == old(self).zip(rhs, |a: u64, b: u64| sat_add(a, b)),
    {
        self.alloc_shm_error_count = self.alloc_shm_error_count.saturating_add(
            rhs.alloc_shm_error_count,
        );
        self.fallback_write_count = self.fallback_write_count.saturating_add(
            rhs.fallback_write_count,
        );
        self.fallback_read_count = self.fallback_read_count.saturating_add(rhs.fallback_read_count);
        self.event_conn_error_count = self.event_conn_error_count.saturating_add(
            rhs.event_conn_error_count,
        );
        self.queue_full_error_count = self.queue_full_error_count.saturating_add(
            rhs.queue_full_error_count,
        );
        self.recv_polling_event_count = self.recv_polling_event_count.saturating_add(
            rhs.recv_polling_event_count,
        );
        self.send_polling_event_count = self.send_polling_event_count.saturating_add(
            rhs.send_polling_event_count,
        );
        self.out_flow_bytes = self.out_flow_bytes.saturating_add(rhs.out_flow_bytes);
        self.in_flow_bytes = self.in_flow_bytes.saturating_add(rhs.in_flow_bytes);
    }

    /// What was added can be taken off again, unless a counter is at its largest.
    pub proof fn law_sub_undoes_add(a: Self, b: Self)
        ensures
            ({
                let sum = a.zip(b, |x: u64, y: u64| sat_add(x, y));
                let back = sum.zip(b, |x: u64, y: u64| sat_sub(x, y));
                &&& a.out_flow_bytes + b.out_flow_bytes <= u64::MAX ==> back.out_flow_bytes
                    == a.out_flow_bytes
                &&& a.in_flow_bytes + b.in_flow_bytes <= u64::MAX ==> back.in_flow_bytes
                    == a.in_flow_bytes
                &&& a.alloc_shm_error_count + b.alloc_shm_error_count <= u64::MAX
                    ==> back.alloc_shm_error_count == a.alloc_shm_error_count
                &&& a.fallback_write_count + b.fallback_write_count <= u64::MAX
                    ==> back.fallback_write_count == a.fallback_write_count
                &&& a.fallback_read_count + b.fallback_read_count <= u64::MAX
                    ==> back.fallback_read_count == a.fallback_read_count
                &&& a.event_conn_error_count + b.event_conn_error_count <= u64::MAX
                    ==> back.event_conn_error_count == a.event_conn_error_count
                &&& a.queue_full_error_count + b.queue_full_error_count <= u64::MAX
                    ==> back.queue_full_error_count == a.queue_full_error_count
                &&& a.recv_polling_event_count + b.recv_polling_event_count <= u64::MAX
                    ==> back.recv_polling_event_count == a.recv_polling_event_count
                &&& a.send_polling_event_count + b.send_polling_event_count <= u64::MAX
                    ==> back.send_polling_event_count == a.send_polling_event_count
            }),
    {
    }
}

/// A counter grows by what is counted and starts over after the largest number.
pub proof fn law_counters_grow(c: &mut u64, n: u64)
    requires
        call_ensures(count, (c, n), ()),
    ensures
        *final(c) == (*old(c) + n) % 0x1_0000_0000_0000_0000,
{
}

/// A snapshot shows every counter as it is, and the counters of several sessions add up: what was
/// added comes off again where no sum is past the largest number. No sum and no difference leaves
/// the range of a counter.
pub proof fn law_snapshots_add_up(
    s: Stats,
    a: StatsSnapshot,
    total: &mut StatsSnapshot,
    back: StatsSnapshot,
    under: StatsSnapshot,
)
    requires
        call_ensures(Stats::snapshot, (&s,), a),
        call_ensures(StatsSnapshot::add_assign, (total, a), ()),
        call_ensures(StatsSnapshot::saturating_sub, (*final(total), a), back),
        call_ensures(StatsSnapshot::saturating_sub, (*old(total), *final(total)), under),
    ensures
        a.alloc_shm_error_count == s.alloc_shm_error_count,
        a.fallback_write_count == s.fallback_write_count,
        a.fallback_read_count == s.fallback_read_count,
        a.event_conn_error_count == s.event_conn_error_count,
        a.queue_full_error_count == s.queue_full_error_count,
        a.recv_polling_event_count == s.recv_polling_event_count,
        a.send_polling_event_count == s.send_polling_event_count,
        a.out_flow_bytes == s.out_flow_bytes,
        a.in_flow_bytes == s.in_flow_bytes,
        old(total).out_flow_bytes + s.out_flow_bytes <= u64::MAX ==> final(total).out_flow_bytes
            == old(total).out_flow_bytes + s.out_flow_bytes && back.out_flow_bytes
            == old(total).out_flow_bytes,
        old(total).out_flow_bytes + s.out_flow_bytes > u64::MAX ==> final(total).out_flow_bytes
            == u64::MAX,
        old(total).in_flow_bytes + s.in_flow_bytes <= u64::MAX ==> final(total).in_flow_bytes
            == old(total).in_flow_bytes + s.in_flow_bytes && back.in_flow_bytes
            == old(total).in_flow_bytes,
        old(total).queue_full_error_count + s.queue_full_error_count <= u64::MAX
            ==> final(total).queue_full_error_count == old(total).queue_full_error_count
            + s.queue_full_error_count && back.queue_full_error_count
            == old(total).queue_full_error_count,
        old(total).alloc_shm_error_count + s.alloc_shm_error_count <= u64::MAX ==> final(total).alloc_shm_error_count == old(total).alloc_shm_error_count + s.alloc_shm_error_count
            && back.alloc_shm_error_count == old(total).alloc_shm_error_count,
        old(total).fallback_write_count + s.fallback_write_count <= u64::MAX ==> final(total).fallback_write_count == old(total).fallback_write_count + s.fallback_write_count
            && back.fallback_write_count == old(total).fallback_write_count,
        old(total).fallback_read_count + s.fallback_read_count <= u64::MAX ==> final(total).fallback_read_count == old(total).fallback_read_count + s.fallback_read_count
            && back.fallback_read_count == old(total).fallback_read_count,
        old(total).event_conn_error_count + s.event_conn_error_count <= u64::MAX ==> final(total).event_conn_error_count == old(total).event_conn_error_count + s.event_conn_error_count
            && back.event_conn_error_count == old(total).event_conn_error_count,
        old(total).recv_polling_event_count + s.recv_polling_event_count <= u64::MAX ==> final(total).recv_polling_event_count == old(total).recv_polling_event_count
            + s.recv_polling_event_count && back.recv_polling_event_count
            == old(total).recv_polling_event_count,
        old(total).send_polling_event_count + s.send_polling_event_count <= u64::MAX ==> final(total).send_polling_event_count == old(total).send_polling_event_count
            + s.send_polling_event_count && back.send_polling_event_count
            == old(total).send_polling_event_count,
        under.out_flow_bytes == 0 && under.in_flow_bytes == 0 && under.queue_full_error_count == 0
            && under.alloc_shm_error_count == 0 && under.fallback_write_count == 0
            && under.fallback_read_count == 0 && under.event_conn_error_count == 0
            && under.recv_polling_event_count == 0 && under.send_polling_event_count == 0,
{
}

} // verus!
