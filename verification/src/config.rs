//! Configuration of sessions.

use std::time::Duration;

use vstd::prelude::*;

use crate::consts::{
    default_buffer_slice_sizes, session_rebuild_interval, MemMapType, DEFAULT_QUEUE_CAP,
    DEFAULT_QUEUE_PATH, DEFAULT_SHARE_MEMORY_CAP,
};
use crate::outside;

verus! {

/// A free list: buffers of `size` bytes in `percent` per cent of the region.
#[derive(Clone, Copy, Debug, PartialEq, Eq, Structural)]
pub struct SizePercentPair {
    pub size: u32,
    pub percent: u32,
}

/// The machine that a session runs on.
#[derive(Clone, Copy, Debug, PartialEq, Eq, Structural)]
pub struct Platform {
    pub linux: bool,
    pub amd64: bool,
    pub arm64: bool,
    pub riscv64: bool,
}

impl Platform {
    /// Linux on an amd64 machine.
    pub open spec fn spec_linux_amd64() -> Self {
        Platform { linux: true, amd64: true, arm64: false, riscv64: false }
    }

    /// Linux on an amd64 machine.
    #[verifier::when_used_as_spec(spec_linux_amd64)]
    pub fn linux_amd64() -> (r: Self)
        ensures
            r == Self::spec_linux_amd64(),
    {
        Platform { linux: true, amd64: true, arm64: false, riscv64: false }
    }

    /// Whether queue positions are kept aligned on this machine whatever the protocol version.
    pub fn needs_alignment(&self) -> (r: bool)
        ensures
            r == (self.arm64 || self.riscv64),
    {
        self.arm64 || self.riscv64
    }
}

/// How the protocol is agreed on.
#[derive(Clone, Copy, Debug, PartialEq, Eq, Structural)]
pub enum ProtocolMode {
    /// Shared memory by file path uses V2, shared memory by memfd uses V3.
    Legacy,
    /// V4 negotiation.
    V4 {
        /// Whether a client connects again and takes V3 after V4 failed for a network or protocol
        /// reason. A rejection that the peer spelled out is reported and never downgraded.
        fallback: bool,
    },
}

impl Default for ProtocolMode {
    fn default() -> (r: Self)
        ensures
            r == ProtocolMode::Legacy,
    {
        ProtocolMode::Legacy
    }
}

/// How a peer learns that the queue holds something.
#[derive(Clone, Copy, Debug, PartialEq, Eq)]
pub enum WakeupMode {
    /// By a polling message over the connection.
    Default,
    /// By looking at the queue every so often.
    EventQueuePolling { interval: Duration },
    /// By an eventfd; both regions must be memfds.
    EventFd,
}

impl Default for WakeupMode {
    fn default() -> (r: Self)
        ensures
            r == WakeupMode::Default,
    {
        WakeupMode::Default
    }
}

/// What a client asks for when it connects.
#[derive(Clone, Copy, Debug, PartialEq, Eq)]
pub struct ProtocolConfig {
    pub mode: ProtocolMode,
    /// Only V4 takes anything but the default.
    pub wakeup: WakeupMode,
}

impl Default for ProtocolConfig {
    fn default() -> (r: Self)
        ensures
            r == (ProtocolConfig { mode: ProtocolMode::Legacy, wakeup: WakeupMode::Default }),
    {
        ProtocolConfig { mode: ProtocolMode::Legacy, wakeup: WakeupMode::Default }
    }
}

/// What tunes a session.
///
/// The default keeps to the older protocols. V4 is asked for with [`Config::with_v4`],
/// [`Config::with_v4_eventfd`] or [`Config::with_v4_event_queue_polling`].
#[derive(Debug)]
pub struct Config {
    /// A write to the connection that takes longer closes it.
    pub connection_write_timeout: Duration,
    pub connection_read_timeout: Option<Duration>,
    pub connection_timeout: Option<Duration>,
    /// How long both sides may take to exchange their configuration.
    pub initialize_timeout: Duration,
    /// The most requests that are pending at once.
    pub queue_cap: u32,
    /// The path of the queue region.
    pub queue_path: String,
    /// The size of the buffer region.
    pub share_memory_buffer_cap: u32,
    /// The start of the path of the buffer region.
    pub share_memory_path_prefix: String,
    /// The free lists of the buffer region.
    pub buffer_slice_sizes: Vec<SizePercentPair>,
    pub mem_map_type: MemMapType,
    /// How long a client waits before it builds a lost session anew.
    pub rebuild_interval: Duration,
    /// The most idle streams that a session keeps.
    pub max_stream_num: usize,
    pub protocol: ProtocolConfig,
}

/// Why a configuration is refused.
#[derive(Clone, Copy, Debug, PartialEq, Eq, Structural)]
pub enum ConfigError {
    /// A wakeup feature needs V4.
    WakeupInLegacyMode,
    /// The polling interval must be greater than zero.
    ZeroPollingInterval,
    /// The eventfd wakeup needs memfd shared memory.
    EventFdWithoutMemfd,
    /// The buffer region must have at least one MiB.
    ShareMemoryTooSmall { cap: u32 },
    /// There must be a free list.
    NoSliceSizes,
    /// No slice may be larger than the region.
    SliceTooLarge { size: u32, cap: u32 },
    /// The percentages must come to one hundred.
    PercentSum,
    /// Neither path may be empty.
    EmptyPath,
    OsNotSupported,
    ArchNotSupported,
}

/// The least multiple of `unit` that is not below `x`.
pub open spec fn align_up(x: u32, unit: int) -> int {
    (x + unit - 1) / unit * unit
}

/// The sum of the percentages.
pub open spec fn percent_sum(s: Seq<SizePercentPair>) -> nat
    decreases s.len(),
{
    if s.len() == 0 {
        0
    } else {
        percent_sum(s.drop_last()) + s.last().percent as nat
    }
}

/// How many pairs from `i` on come before the first whose size is above `cap`, counted from the
/// start of the list.
pub open spec fn fitting_from(s: Seq<SizePercentPair>, cap: u32, i: int) -> int
    decreases s.len() - i,
{
    if i >= s.len() || s[i].size > cap {
        i
    } else {
        fitting_from(s, cap, i + 1)
    }
}

/// The pairs with the first `n` sizes brought up to a multiple of four.
pub open spec fn aligned_first(s: Seq<SizePercentPair>, n: int) -> Seq<SizePercentPair> {
    Seq::new(
        s.len(),
        |i: int|
            if i < n {
                SizePercentPair { size: align_up(s[i].size, 4) as u32, percent: s[i].percent }
            } else {
                s[i]
            },
    )
}

impl Config {
    /// What is wrong before the free lists are looked at.
    pub open spec fn early_error(self) -> Option<ConfigError> {
        if self.protocol.mode is Legacy && !(self.protocol.wakeup is Default) {
            Some(ConfigError::WakeupInLegacyMode)
        } else if self.protocol.wakeup is EventQueuePolling && outside::duration_nanos(
            self.protocol.wakeup->interval,
        ) == 0 {
            Some(ConfigError::ZeroPollingInterval)
        } else if self.protocol.wakeup is EventFd && !(self.mem_map_type is MemMapTypeMemFd) {
            Some(ConfigError::EventFdWithoutMemfd)
        } else if self.share_memory_buffer_cap < 0x10_0000 {
            Some(ConfigError::ShareMemoryTooSmall { cap: self.share_memory_buffer_cap })
        } else if self.buffer_slice_sizes@.len() == 0 {
            Some(ConfigError::NoSliceSizes)
        } else {
            None
        }
    }

    /// How many free lists come before the first with slices larger than the region.
    pub open spec fn fitting(self) -> int {
        fitting_from(self.buffer_slice_sizes@, self.share_memory_buffer_cap, 0)
    }

    /// The error of the free lists, if there is one.
    pub open spec fn slice_error(self) -> Option<ConfigError> {
        let n = self.fitting();
        if n < self.buffer_slice_sizes@.len() {
            Some(
                ConfigError::SliceTooLarge {
                    size: self.buffer_slice_sizes@[n].size,
                    cap: self.share_memory_buffer_cap,
                },
            )
        } else if percent_sum(self.buffer_slice_sizes@) != 100 {
            Some(ConfigError::PercentSum)
        } else {
            None
        }
    }

    /// What [`Config::verify_on`] finds, checks in their order.
    pub open spec fn verdict(self, platform: Platform) -> Result<(), ConfigError> {
        if self.early_error() is Some {
            Err(self.early_error()->0)
        } else if self.slice_error() is Some {
            Err(self.slice_error()->0)
        } else if self.share_memory_path_prefix@.len() == 0 || self.queue_path@.len() == 0 {
            Err(ConfigError::EmptyPath)
        } else if !platform.linux {
            Err(ConfigError::OsNotSupported)
        } else if !platform.amd64 && !platform.arm64 {
            Err(ConfigError::ArchNotSupported)
        } else {
            Ok(())
        }
    }

    /// The free lists after [`Config::verify_on`]: those that were looked at and are not too
    /// large have their size aligned.
    pub open spec fn sizes_after(self) -> Seq<SizePercentPair> {
        if self.early_error() is Some {
            self.buffer_slice_sizes@
        } else {
            aligned_first(self.buffer_slice_sizes@, self.fitting())
        }
    }

    /// The queue capacity after [`Config::verify_on`].
    pub open spec fn queue_cap_after(self) -> int {
        if self.early_error() is Some || self.slice_error() is Some {
            self.queue_cap as int
        } else {
            align_up(self.queue_cap, 8)
        }
    }

    /// `self` and `other` agree but for the free lists and the queue capacity.
    pub open spec fn same_elsewhere(self, other: Self) -> bool {
        &&& self.connection_write_timeout == other.connection_write_timeout
        &&& self.connection_read_timeout == other.connection_read_timeout
        &&& self.connection_timeout == other.connection_timeout
        &&& self.initialize_timeout == other.initialize_timeout
        &&& self.queue_path == other.queue_path
        &&& self.share_memory_buffer_cap == other.share_memory_buffer_cap
        &&& self.share_memory_path_prefix == other.share_memory_path_prefix
        &&& self.mem_map_type == other.mem_map_type
        &&& self.rebuild_interval == other.rebuild_interval
        &&& self.max_stream_num == other.max_stream_num
        &&& self.protocol == other.protocol
    }

    /// Checking this configuration adds no numbers past the largest `u32`.
    pub open spec fn addable(self) -> bool {
        self.early_error() is None ==> {
            let s = self.buffer_slice_sizes@;
            &&& forall|i: int|
                #![trigger s[i]]
                0 <= i <= self.fitting() && i < s.len() ==> percent_sum(s.take(i + 1)) <= u32::MAX
            &&& forall|i: int| 0 <= i < self.fitting() ==> s[i].size + 3 <= u32::MAX
            &&& self.slice_error() is None ==> self.queue_cap + 7 <= u32::MAX
        }
    }

    /// What [`Config::new`] and [`Config::default`] give.
    pub open spec fn is_default(self) -> bool {
        &&& outside::duration_nanos(self.connection_write_timeout) == 10_000_000_000
        &&& self.connection_read_timeout is None
        &&& self.connection_timeout is None
        &&& outside::duration_nanos(self.initialize_timeout) == 1_000_000_000
        &&& self.queue_cap == DEFAULT_QUEUE_CAP
        &&& self.queue_path@ == DEFAULT_QUEUE_PATH@
        &&& self.share_memory_buffer_cap == DEFAULT_SHARE_MEMORY_CAP
        &&& self.share_memory_path_prefix@ == "/dev/shm/shmipc"@
        &&& self.buffer_slice_sizes@ == seq![
            SizePercentPair { size: 8172, percent: 50 },
            SizePercentPair { size: 32748, percent: 30 },
            SizePercentPair { size: 131052, percent: 20 },
        ]
        &&& self.mem_map_type == MemMapType::MemMapTypeDevShmFile
        &&& outside::duration_nanos(self.rebuild_interval) == 60_000_000_000
        &&& self.max_stream_num == 4096
        &&& self.protocol == ProtocolConfig {
            mode: ProtocolMode::Legacy,
            wakeup: WakeupMode::Default,
        }
    }

    /// `self` is `old` with the given protocol settings.
    pub open spec fn is_with(self, old: Self, protocol: ProtocolConfig) -> bool {
        self == (Config { protocol, ..old })
    }

    pub fn new() -> (r: Self)
        ensures
            r.is_default(),
    {
        Config::default()
    }

    /// Asks for V4 with the default wakeup, and for V3 where V4 fails.
    pub fn with_v4(self) -> (r: Self)
        ensures
            r.is_with(
                self,
                ProtocolConfig {
                    mode: ProtocolMode::V4 { fallback: true },
                    wakeup: self.protocol.wakeup,
                },
            ),
    {
        let mut c = self;
        c.protocol.mode = ProtocolMode::V4 { fallback: true };
        c
    }

    /// Asks for V4 with eventfd wakeups.
    pub fn with_v4_eventfd(self) -> (r: Self)
        ensures
            r.is_with(
                self,
                ProtocolConfig {
                    mode: ProtocolMode::V4 { fallback: true },
                    wakeup: WakeupMode::EventFd,
                },
            ),
    {
        let mut c = self;
        c.protocol.mode = ProtocolMode::V4 { fallback: true };
        c.protocol.wakeup = WakeupMode::EventFd;
        c
    }

    /// Asks for V4 with a look at the queue every `interval`.
    pub fn with_v4_event_queue_polling(self, interval: Duration) -> (r: Self)
        ensures
            r.is_with(
                self,
                ProtocolConfig {
                    mode: ProtocolMode::V4 { fallback: true },
                    wakeup: WakeupMode::EventQueuePolling { interval },
                },
            ),
    {
        let mut c = self;
        c.protocol.mode = ProtocolMode::V4 { fallback: true };
        c.protocol.wakeup = WakeupMode::EventQueuePolling { interval };
        c
    }

    fn find_early_error(&self) -> (r: Option<ConfigError>)
        ensures
            r == self.early_error(),
    {
        if matches!(self.protocol.mode, ProtocolMode::Legacy) && !matches!(
            self.protocol.wakeup,
            WakeupMode::Default
        ) {
            return Some(ConfigError::WakeupInLegacyMode);
        }
        if let WakeupMode::EventQueuePolling { interval } = self.protocol.wakeup {
            if interval.is_zero() {
                return Some(ConfigError::ZeroPollingInterval);
            }
        }
        if matches!(self.protocol.wakeup, WakeupMode::EventFd) && !matches!(
            self.mem_map_type,
            MemMapType::MemMapTypeMemFd
        ) {
            return Some(ConfigError::EventFdWithoutMemfd);
        }
        if self.share_memory_buffer_cap < 0x10_0000 {
            return Some(ConfigError::ShareMemoryTooSmall { cap: self.share_memory_buffer_cap });
        }
        if self.buffer_slice_sizes.len() == 0 {
            return Some(ConfigError::NoSliceSizes);
        }
        None
    }

    /// Whether checking this configuration adds no numbers past the largest `u32`.
    pub fn is_addable(&self) -> (r: bool)
        ensures
            r == self.addable(),
    {
        if self.find_early_error().is_some() {
            return true;
        }
        let ghost s = self.buffer_slice_sizes@;
        let cap: u32 = self.share_memory_buffer_cap;
        let mut sum: u32 = 0;
        let mut i: usize = 0;
        assert(s.take(0) =~= Seq::<SizePercentPair>::empty());
        proof {
            lemma_fitting_bounds(s, cap, 0);
        }
        while i < self.buffer_slice_sizes.len()
            invariant
                i <= s.len(),
                s == self.buffer_slice_sizes@,
                cap == self.share_memory_buffer_cap,
                self.early_error() is None,
                fitting_from(s, cap, i as int) == self.fitting(),
                i <= self.fitting() <= s.len(),
                sum == percent_sum(s.take(i as int)),
                forall|j: int|
                    #![trigger s[j]]
                    0 <= j < i ==> percent_sum(s.take(j + 1)) <= u32::MAX && s[j].size + 3
                        <= u32::MAX,
            decreases s.len() - i,
        {
            let pair: SizePercentPair = self.buffer_slice_sizes[i];
            proof {
                lemma_fitting_bounds(s, cap, i as int);
                lemma_fitting_bounds(s, cap, i + 1);
                lemma_sum_step(s, i as int);
            }
            match sum.checked_add(pair.percent) {
                Some(n) => {
                    sum = n;
                },
                None => {
                    assert(s[i as int].size + 3 >= 0);
                    return false;
                },
            }
            if pair.size > cap {
                assert(s[i as int] == pair);
                return true;
            }
            if pair.size > u32::MAX - 3 {
                return false;
            }
            i = i + 1;
        }
        assert(s.take(s.len() as int) =~= s);
        sum != 100 || self.queue_cap <= u32::MAX - 7
    }

    /// Checks the configuration for a machine, and brings the slice sizes up to multiples of four
    /// and the queue capacity up to a multiple of eight.
    pub fn verify_on(&mut self, platform: Platform) -> (r: Result<(), ConfigError>)
        requires
            old(self).addable(),
        ensures
            r == old(self).verdict(platform),
            final(self).buffer_slice_sizes@ == old(self).sizes_after(),
            final(self).queue_cap == old(self).queue_cap_after(),
            final(self).same_elsewhere(*old(self)),
    {
        if let Some(e) = self.find_early_error() {
            return Err(e);
        }
        let ghost s = self.buffer_slice_sizes@;
        let cap: u32 = self.share_memory_buffer_cap;
        let mut sum: u32 = 0;
        let mut i: usize = 0;
        assert(s.take(0) =~= Seq::<SizePercentPair>::empty());
        assert(aligned_first(s, 0) =~= s);
        proof {
            lemma_fitting_bounds(s, cap, 0);
        }
        while i < self.buffer_slice_sizes.len()
            invariant
                i <= s.len(),
                s == old(self).buffer_slice_sizes@,
                cap == old(self).share_memory_buffer_cap,
                old(self).early_error() is None,
                old(self).addable(),
                fitting_from(s, cap, i as int) == old(self).fitting(),
                i <= old(self).fitting() <= s.len(),
                sum == percent_sum(s.take(i as int)),
                self.buffer_slice_sizes@ == aligned_first(s, i as int),
                self.queue_cap == old(self).queue_cap,
                self.same_elsewhere(*old(self)),
            decreases s.len() - i,
        {
            let pair: SizePercentPair = self.buffer_slice_sizes[i];
            proof {
                assert(pair == s[i as int]);
                lemma_fitting_bounds(s, cap, i as int);
                lemma_fitting_bounds(s, cap, i + 1);
                lemma_sum_step(s, i as int);
            }
            sum = sum + pair.percent;
            if pair.size > cap {
                return Err(ConfigError::SliceTooLarge { size: pair.size, cap });
            }
            let x: u32 = pair.size;
            let y: u32 = x + 3;
            let aligned: u32 = y & !3;
            assert((y & !3) == y / 4 * 4) by (bit_vector);
            if aligned != x {
                self.buffer_slice_sizes.set(i, SizePercentPair { size: aligned, percent: pair.percent });
            }
            i = i + 1;
            assert(self.buffer_slice_sizes@ =~= aligned_first(s, i as int));
        }
        assert(s.take(s.len() as int) =~= s);
        if sum != 100 {
            return Err(ConfigError::PercentSum);
        }
        let q: u32 = self.queue_cap;
        let y: u32 = q + 7;
        let aligned_queue_cap: u32 = y & !7;
        assert((y & !7) == y / 8 * 8) by (bit_vector);
        if aligned_queue_cap != self.queue_cap {
            self.queue_cap = aligned_queue_cap;
        }
        if self.share_memory_path_prefix.as_str().is_empty() || self.queue_path.as_str().is_empty() {
            return Err(ConfigError::EmptyPath);
        }
        if !platform.linux {
            return Err(ConfigError::OsNotSupported);
        }
        if !platform.amd64 && !platform.arm64 {
            return Err(ConfigError::ArchNotSupported);
        }
        Ok(())
    }

    /// [`Config::verify_on`] for a machine that is supported.
    pub fn verify(&mut self) -> (r: Result<(), ConfigError>)
        requires
            old(self).addable(),
        ensures
            r == old(self).verdict(Platform::linux_amd64()),
            final(self).buffer_slice_sizes@ == old(self).sizes_after(),
            final(self).queue_cap == old(self).queue_cap_after(),
            final(self).same_elsewhere(*old(self)),
    {
        self.verify_on(Platform::linux_amd64())
    }

    /// In a configuration that was found good every slice size is a multiple of four and the
    /// queue capacity a multiple of eight, neither below what it was.
    pub proof fn law_verified_is_aligned(c: Self, platform: Platform)
        requires
            c.addable(),
            c.verdict(platform) is Ok,
        ensures
            c.queue_cap_after() % 8 == 0,
            c.queue_cap <= c.queue_cap_after() < c.queue_cap + 8,
            c.sizes_after().len() == c.buffer_slice_sizes@.len(),
            forall|i: int|
                #![trigger c.sizes_after()[i]]
                0 <= i < c.sizes_after().len() ==> c.sizes_after()[i].size % 4 == 0
                    && c.buffer_slice_sizes@[i].size <= c.sizes_after()[i].size
                    < c.buffer_slice_sizes@[i].size + 4 && c.sizes_after()[i].percent
                    == c.buffer_slice_sizes@[i].percent,
    {
        lemma_fitting_bounds(c.buffer_slice_sizes@, c.share_memory_buffer_cap, 0);
    }

    /// A configuration that was found good is found good again and stays as it is, unless
    /// aligning took a slice size past the region.
    pub proof fn law_verify_is_idempotent(c: Self, d: Self, platform: Platform)
        requires
            c.addable(),
            c.verdict(platform) is Ok,
            d.same_elsewhere(c),
            d.buffer_slice_sizes@ == c.sizes_after(),
            d.queue_cap == c.queue_cap_after(),
            forall|i: int|
                0 <= i < c.buffer_slice_sizes@.len() ==> align_up(
                    #[trigger] c.buffer_slice_sizes@[i].size,
                    4,
                ) <= c.share_memory_buffer_cap,
        ensures
            d.verdict(platform) is Ok,
            d.sizes_after() == d.buffer_slice_sizes@,
            d.queue_cap_after() == d.queue_cap,
    {
        let s = c.buffer_slice_sizes@;
        let t = d.buffer_slice_sizes@;
        let cap = c.share_memory_buffer_cap;
        lemma_fitting_bounds(s, cap, 0);
        lemma_fitting_bounds(t, cap, 0);
        Self::law_verified_is_aligned(c, platform);
        assert forall|i: int| 0 <= i < t.len() implies t[i].size <= cap by {
            assert(align_up(s[i].size, 4) <= cap);
        }
        lemma_same_sum(s, t);
        assert(aligned_first(t, t.len() as int) =~= t);
    }
}

impl Clone for Config {
    fn clone(&self) -> (r: Self)
        ensures
            r.same_elsewhere(*self),
            r.queue_cap == self.queue_cap,
            r.buffer_slice_sizes@ == self.buffer_slice_sizes@,
    {
        let sizes: Vec<SizePercentPair> = self.buffer_slice_sizes.clone();
        assert(sizes@ =~= self.buffer_slice_sizes@);
        Config {
            connection_write_timeout: self.connection_write_timeout,
            connection_read_timeout: self.connection_read_timeout,
            connection_timeout: self.connection_timeout,
            initialize_timeout: self.initialize_timeout,
            queue_cap: self.queue_cap,
            queue_path: self.queue_path.clone(),
            share_memory_buffer_cap: self.share_memory_buffer_cap,
            share_memory_path_prefix: self.share_memory_path_prefix.clone(),
            buffer_slice_sizes: sizes,
            mem_map_type: self.mem_map_type,
            rebuild_interval: self.rebuild_interval,
            max_stream_num: self.max_stream_num,
            protocol: self.protocol,
        }
    }
}

impl Default for Config {
    fn default() -> (r: Self)
        ensures
            r.is_default(),
    {
        Config {
            connection_write_timeout: Duration::from_secs(10),
            connection_read_timeout: None,
            connection_timeout: None,
            initialize_timeout: Duration::from_millis(1000),
            queue_cap: DEFAULT_QUEUE_CAP,
            queue_path: DEFAULT_QUEUE_PATH.to_owned(),
            share_memory_buffer_cap: DEFAULT_SHARE_MEMORY_CAP,
            share_memory_path_prefix: "/dev/shm/shmipc".to_owned(),
            buffer_slice_sizes: default_buffer_slice_sizes(),
            mem_map_type: MemMapType::MemMapTypeDevShmFile,
            rebuild_interval: session_rebuild_interval(),
            max_stream_num: 4096,
            protocol: ProtocolConfig { mode: ProtocolMode::Legacy, wakeup: WakeupMode::Default },
        }
    }
}

proof fn lemma_fitting_bounds(s: Seq<SizePercentPair>, cap: u32, i: int)
    requires
        0 <= i <= s.len(),
    ensures
        i <= fitting_from(s, cap, i) <= s.len(),
        fitting_from(s, cap, i) < s.len() ==> s[fitting_from(s, cap, i)].size > cap,
        forall|j: int| i <= j < fitting_from(s, cap, i) ==> (#[trigger] s[j]).size <= cap,
    decreases s.len() - i,
{
    if i < s.len() && s[i].size <= cap {
        lemma_fitting_bounds(s, cap, i + 1);
    }
}

proof fn lemma_sum_step(s: Seq<SizePercentPair>, i: int)
    requires
        0 <= i < s.len(),
    ensures
        percent_sum(s.take(i + 1)) == percent_sum(s.take(i)) + s[i].percent,
{
    assert(s.take(i + 1).drop_last() =~= s.take(i));
}

proof fn lemma_same_sum(s: Seq<SizePercentPair>, t: Seq<SizePercentPair>)
    requires
        s.len() == t.len(),
        forall|i: int| 0 <= i < s.len() ==> (#[trigger] t[i]).percent == s[i].percent,
    ensures
        percent_sum(s) == percent_sum(t),
    decreases s.len(),
{
    if s.len() > 0 {
        lemma_same_sum(s.drop_last(), t.drop_last());
    }
}

/// A configuration is good exactly where nothing of what follows is wrong with it, and then the
/// slice sizes and the queue capacity are brought up to what the region needs, by less than one
/// unit. What is wrong first is what is reported.
pub proof fn law_good_configurations_pass(
    c: &mut Config,
    platform: Platform,
    r: Result<(), ConfigError>,
)
    requires
        call_ensures(Config::verify_on, (c, platform), r),
        old(c).addable(),
    ensures
        ({
            let s = old(c).buffer_slice_sizes@;
            let t = final(c).buffer_slice_sizes@;
            let cap = old(c).share_memory_buffer_cap;
            let w = old(c).protocol.wakeup;
            let legacy_wakeup = old(c).protocol.mode is Legacy && !(w is Default);
            let zero = w is EventQueuePolling && outside::duration_nanos(w->interval) == 0;
            let no_memfd = w is EventFd && !(old(c).mem_map_type is MemMapTypeMemFd);
            let fits = forall|i: int| 0 <= i < s.len() ==> (#[trigger] s[i]).size <= cap;
            let early = legacy_wakeup || zero || no_memfd || cap < 0x10_0000 || s.len() == 0;
            let no_path = old(c).share_memory_path_prefix@.len() == 0
                || old(c).queue_path@.len() == 0;
            &&& r is Ok <==> !early && fits && percent_sum(s) == 100 && !no_path && platform.linux
                && (platform.amd64 || platform.arm64)
            &&& r is Ok ==> {
                &&& final(c).queue_cap % 8 == 0
                &&& old(c).queue_cap <= final(c).queue_cap < old(c).queue_cap + 8
                &&& t.len() == s.len()
                &&& forall|i: int|
                    #![trigger t[i]]
                    0 <= i < t.len() ==> t[i].size % 4 == 0 && s[i].size <= t[i].size
                        < s[i].size + 4 && t[i].percent == s[i].percent
            }
            &&& r == Err::<(), ConfigError>(ConfigError::WakeupInLegacyMode) <==> legacy_wakeup
            &&& r == Err::<(), ConfigError>(ConfigError::ZeroPollingInterval) <==> zero
                && !legacy_wakeup
            &&& r == Err::<(), ConfigError>(ConfigError::EventFdWithoutMemfd) <==> no_memfd
                && !legacy_wakeup
            &&& r == Err::<(), ConfigError>(ConfigError::ShareMemoryTooSmall { cap }) <==> cap
                < 0x10_0000 && !legacy_wakeup && !zero && !no_memfd
            &&& r == Err::<(), ConfigError>(ConfigError::NoSliceSizes) <==> s.len() == 0 && cap
                >= 0x10_0000 && !legacy_wakeup && !zero && !no_memfd
            &&& r is Err && r->Err_0 is SliceTooLarge <==> !early && !fits
            &&& r == Err::<(), ConfigError>(ConfigError::PercentSum) <==> !early && fits
                && percent_sum(s) != 100
            &&& r == Err::<(), ConfigError>(ConfigError::EmptyPath) <==> !early && fits
                && percent_sum(s) == 100 && no_path
            &&& r == Err::<(), ConfigError>(ConfigError::OsNotSupported) <==> !early && fits
                && percent_sum(s) == 100 && !no_path && !platform.linux
            &&& final(c).share_memory_buffer_cap == cap
            &&& final(c).protocol == old(c).protocol
            &&& final(c).mem_map_type == old(c).mem_map_type
            &&& final(c).queue_path == old(c).queue_path
            &&& final(c).share_memory_path_prefix == old(c).share_memory_path_prefix
        }),
{
    let s = old(c).buffer_slice_sizes@;
    let cap = old(c).share_memory_buffer_cap;
    lemma_fitting_bounds(s, cap, 0);
    if r is Ok {
        Config::law_verified_is_aligned(*old(c), platform);
    }
}

/// The percentages of a list are those of its pairs, each counted once.
pub proof fn law_percentages_are_added(s: Seq<SizePercentPair>, p: SizePercentPair)
    ensures
        percent_sum(Seq::empty()) == 0,
        percent_sum(s.push(p)) == percent_sum(s) + p.percent,
{
    assert(s.push(p).drop_last() =~= s);
}

/// The configuration that everybody starts with is good on Linux, and so is each that asks for V4.
pub proof fn law_defaults_are_good(
    c: &mut Config,
    platform: Platform,
    r: Result<(), ConfigError>,
    d: &mut Config,
    q: Result<(), ConfigError>,
)
    requires
        platform.linux,
        platform.amd64 || platform.arm64,
        call_ensures(Config::new, (), *old(c)),
        call_ensures(Config::verify_on, (c, platform), r),
        call_ensures(Config::with_v4, (*old(c),), *old(d)),
        call_ensures(Config::verify_on, (d, platform), q),
    ensures
        r is Ok,
        q is Ok,
        final(c).protocol.mode is Legacy,
        final(d).protocol.mode == (ProtocolMode::V4 { fallback: true }),
        final(c).queue_cap == old(c).queue_cap,
        final(c).buffer_slice_sizes@ =~= old(c).buffer_slice_sizes@,
{
    reveal_with_fuel(percent_sum, 4);
    reveal_with_fuel(fitting_from, 4);
    reveal_strlit("/dev/shm/shmipc");
    reveal_strlit("/dev/shm/shmipc_queue");
    let s = old(c).buffer_slice_sizes@;
    assert(s.drop_last().drop_last() =~= seq![s[0]]);
    assert(s.drop_last() =~= seq![s[0], s[1]]);
    assert(percent_sum(s) == 100) by {
        law_percentages_are_added(seq![s[0], s[1]], s[2]);
        law_percentages_are_added(seq![s[0]], s[1]);
        law_percentages_are_added(Seq::empty(), s[0]);
        assert(Seq::empty().push(s[0]) =~= seq![s[0]]);
        assert(seq![s[0]].push(s[1]) =~= seq![s[0], s[1]]);
        assert(seq![s[0], s[1]].push(s[2]) =~= s);
    }
}

/// Who asks for V4 gets what was asked for, may fall back, and keeps everything else.
pub proof fn law_v4_is_asked_for(c: Config, interval: Duration, x: Config, y: Config, z: Config)
    requires
        call_ensures(Config::with_v4, (c,), x),
        call_ensures(Config::with_v4_eventfd, (c,), y),
        call_ensures(Config::with_v4_event_queue_polling, (c, interval), z),
    ensures
        x.protocol.mode == (ProtocolMode::V4 { fallback: true }),
        x.protocol.wakeup == c.protocol.wakeup,
        y.protocol.mode == (ProtocolMode::V4 { fallback: true }),
        y.protocol.wakeup is EventFd,
        z.protocol.mode == (ProtocolMode::V4 { fallback: true }),
        z.protocol.wakeup == (WakeupMode::EventQueuePolling { interval }),
        (Config { protocol: c.protocol, ..x }) == c,
        (Config { protocol: c.protocol, ..y }) == c,
        (Config { protocol: c.protocol, ..z }) == c,
{
}

/// Without a machine to check for, a configuration is checked for Linux on amd64.
pub proof fn law_configuration_is_checked_for_linux(
    c: &mut Config,
    r: Result<(), ConfigError>,
    d: &mut Config,
    platform: Platform,
    q: Result<(), ConfigError>,
)
    requires
        *old(d) == *old(c),
        platform.linux,
        platform.amd64,
        call_ensures(Config::verify, (c,), r),
        call_ensures(Config::verify_on, (d, platform), q),
    ensures
        r == q,
        final(c).queue_cap == final(d).queue_cap,
        final(c).buffer_slice_sizes@ == final(d).buffer_slice_sizes@,
{
}

} // verus!
