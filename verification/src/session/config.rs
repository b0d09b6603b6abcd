//! What tunes the sessions of a client.

use std::time::Duration;

use vstd::prelude::*;

use crate::config::Config;
use crate::outside;

verus! {

/// What tunes the sessions of a client.
#[derive(Debug)]
pub struct SessionManagerConfig {
    pub config: Config,
    pub session_num: usize,
    pub stream_max_idle_time: Duration,
}

impl SessionManagerConfig {
    /// What [`SessionManagerConfig::new`] and [`SessionManagerConfig::default`] give: one session
    /// with the default configuration, whose streams may be idle for thirty seconds.
    pub open spec fn is_default(self) -> bool {
        &&& self.config.is_default()
        &&& self.session_num == 1
        &&& outside::duration_nanos(self.stream_max_idle_time) == 30_000_000_000
    }

    pub fn new() -> (r: Self)
        ensures
            r.is_default(),
    {
        Self::default()
    }

    pub fn config(&self) -> (r: &Config)
        ensures
            *r == self.config,
    {
        &self.config
    }

    pub fn config_mut(&mut self) -> (r: &mut Config)
        ensures
            *r == old(self).config,
            *final(self) == (SessionManagerConfig { config: *final(r), ..*old(self) }),
    {
        &mut self.config
    }

    pub fn with_config(self, config: Config) -> (r: Self)
        ensures
            r == (SessionManagerConfig { config, ..self }),
    {
        SessionManagerConfig {
            config,
            session_num: self.session_num,
            stream_max_idle_time: self.stream_max_idle_time,
        }
    }

    pub fn session_num(&self) -> (r: usize)
        ensures
            r == self.session_num,
    {
        self.session_num
    }

    pub fn with_session_num(self, session_num: usize) -> (r: Self)
        ensures
            r == (SessionManagerConfig { session_num, ..self }),
    {
        SessionManagerConfig {
            config: self.config,
            session_num,
            stream_max_idle_time: self.stream_max_idle_time,
        }
    }

    pub fn stream_max_idle_time(&self) -> (r: Duration)
        ensures
            r == self.stream_max_idle_time,
    {
        self.stream_max_idle_time
    }

    pub fn with_stream_max_idle_time(self, stream_max_idle_time: Duration) -> (r: Self)
        ensures
            r == (SessionManagerConfig { stream_max_idle_time, ..self }),
    {
        SessionManagerConfig {
            config: self.config,
            session_num: self.session_num,
            stream_max_idle_time,
        }
    }
}

impl Clone for SessionManagerConfig {
    fn clone(&self) -> (r: Self)
        ensures
            r.config.same_elsewhere(self.config),
            r.config.queue_cap == self.config.queue_cap,
            r.config.buffer_slice_sizes@ == self.config.buffer_slice_sizes@,
            r.session_num == self.session_num,
            r.stream_max_idle_time == self.stream_max_idle_time,
    {
        SessionManagerConfig {
            config: self.config.clone(),
            session_num: self.session_num,
            stream_max_idle_time: self.stream_max_idle_time,
        }
    }
}

impl Default for SessionManagerConfig {
    fn default() -> (r: Self)
        ensures
            r.is_default(),
    {
        SessionManagerConfig {
            config: Config::default(),
            session_num: 1,
            stream_max_idle_time: Duration::from_secs(30),
        }
    }
}

/// What is set is what is read, and nothing else changes.
pub proof fn law_settings_are_kept(
    c: SessionManagerConfig,
    config: Config,
    num: usize,
    idle: Duration,
    x: SessionManagerConfig,
    y: SessionManagerConfig,
    z: SessionManagerConfig,
    read: (&Config, usize, Duration),
)
    requires
        call_ensures(SessionManagerConfig::with_config, (c, config), x),
        call_ensures(SessionManagerConfig::with_session_num, (x, num), y),
        call_ensures(SessionManagerConfig::with_stream_max_idle_time, (y, idle), z),
        call_ensures(SessionManagerConfig::config, (&z,), read.0),
        call_ensures(SessionManagerConfig::session_num, (&z,), read.1),
        call_ensures(SessionManagerConfig::stream_max_idle_time, (&z,), read.2),
    ensures
        *read.0 == config,
        read.1 == num,
        read.2 == idle,
        x.session_num == c.session_num && x.stream_max_idle_time == c.stream_max_idle_time,
        y.stream_max_idle_time == c.stream_max_idle_time,
{
}

} // verus!
