use std::time::Duration;

use shmipc::config::{
    Config, ConfigError, Platform, ProtocolMode, SizePercentPair, WakeupMode,
};
use shmipc::consts::MemMapType;
use shmipc::session::config::SessionManagerConfig;

#[test]
fn verify_aligns_buffer_slice_sizes_and_queue_cap() {
    let mut config = Config {
        queue_cap: 8193,
        buffer_slice_sizes: vec![
            SizePercentPair { size: 4097, percent: 50 },
            SizePercentPair { size: 8193, percent: 50 },
        ],
        ..Config::default()
    };

    config.verify().unwrap();

    assert_eq!(8200, config.queue_cap);
    assert_eq!(4100, config.buffer_slice_sizes[0].size);
    assert_eq!(8196, config.buffer_slice_sizes[1].size);
}

#[test]
fn verify_rejects_wakeup_features_in_legacy_mode() {
    let mut config = Config::default().with_v4_event_queue_polling(Duration::from_micros(100));
    config.protocol.mode = ProtocolMode::Legacy;

    assert!(config.verify().is_err());
}

#[test]
fn verify_rejects_zero_polling_interval() {
    let mut config = Config::default().with_v4_event_queue_polling(Duration::ZERO);

    assert!(config.verify().is_err());
}

#[test]
fn verify_rejects_eventfd_without_memfd() {
    let mut config = Config {
        mem_map_type: MemMapType::MemMapTypeDevShmFile,
        ..Config::default().with_v4_eventfd()
    };

    assert!(config.verify().is_err());
}

#[test]
fn v4_helpers_set_protocol_config() {
    let config = Config::default().with_v4_eventfd();

    assert_eq!(ProtocolMode::V4 { fallback: true }, config.protocol.mode);
    assert_eq!(WakeupMode::EventFd, config.protocol.wakeup);
}

#[test]
fn each_fault_of_a_configuration_is_named() {
    let refuse = |change: fn(&mut Config)| {
        let mut config = Config::default();
        change(&mut config);
        config.verify().unwrap_err()
    };
    assert_eq!(
        refuse(|c| c.protocol.wakeup = WakeupMode::EventFd),
        ConfigError::WakeupInLegacyMode
    );
    assert_eq!(
        refuse(|c| c.share_memory_buffer_cap = 1 << 19),
        ConfigError::ShareMemoryTooSmall { cap: 1 << 19 }
    );
    assert_eq!(refuse(|c| c.buffer_slice_sizes.clear()), ConfigError::NoSliceSizes);
    assert_eq!(
        refuse(|c| c.buffer_slice_sizes[0].size = c.share_memory_buffer_cap + 1),
        ConfigError::SliceTooLarge {
            size: Config::default().share_memory_buffer_cap + 1,
            cap: Config::default().share_memory_buffer_cap,
        }
    );
    assert_eq!(refuse(|c| c.buffer_slice_sizes[0].percent = 51), ConfigError::PercentSum);
    assert_eq!(refuse(|c| c.queue_path.clear()), ConfigError::EmptyPath);
    let mut config = Config::default().with_v4_event_queue_polling(Duration::ZERO);
    assert_eq!(config.verify(), Err(ConfigError::ZeroPollingInterval));
    let mut config = Config::default().with_v4_eventfd();
    config.mem_map_type = MemMapType::MemMapTypeDevShmFile;
    assert_eq!(config.verify(), Err(ConfigError::EventFdWithoutMemfd));
    let on = |linux: bool, amd64: bool| Platform { linux, amd64, arm64: false, riscv64: false };
    assert_eq!(Config::default().verify_on(on(false, true)), Err(ConfigError::OsNotSupported));
    assert_eq!(Config::default().verify_on(on(true, false)), Err(ConfigError::ArchNotSupported));
    assert_eq!(Config::default().verify_on(on(true, true)), Ok(()));
}

#[test]
fn verifying_twice_changes_nothing_more() {
    let mut config = Config::default();
    config.queue_cap = 9;
    config.buffer_slice_sizes = vec![SizePercentPair { size: 4097, percent: 100 }];
    config.verify().unwrap();
    assert_eq!(config.queue_cap, 16);
    config.verify().unwrap();
    assert_eq!(config.queue_cap, 16);
    assert_eq!(config.buffer_slice_sizes[0].size, 4100);
}

#[test]
fn numbers_that_add_up_too_far_are_found_before() {
    let mut config = Config::default();
    assert!(config.is_addable());
    config.queue_cap = u32::MAX;
    assert!(!config.is_addable());
}

#[test]
fn defaults_are_sensible() {
    let config = Config::new();
    assert_eq!(config.connection_write_timeout, Duration::from_secs(10));
    assert_eq!(config.initialize_timeout, Duration::from_millis(1000));
    assert_eq!(config.rebuild_interval, Duration::from_secs(60));
    assert_eq!(config.max_stream_num, 4096);
    assert_eq!(config.share_memory_path_prefix, "/dev/shm/shmipc");
    let sm = SessionManagerConfig::new();
    assert_eq!(sm.session_num(), 1);
    assert_eq!(sm.stream_max_idle_time(), Duration::from_secs(30));
}

#[test]
fn the_sessions_of_a_client_are_tuned() {
    let mut sm = SessionManagerConfig::new()
        .with_session_num(4)
        .with_stream_max_idle_time(Duration::from_secs(7))
        .with_config(Config::new().with_v4());
    sm.config_mut().queue_cap = 64;
    let copy = sm.clone();
    assert_eq!(copy.session_num(), 4);
    assert_eq!(copy.stream_max_idle_time(), Duration::from_secs(7));
    assert_eq!(copy.config().queue_cap, 64);
    assert_eq!(copy.config().protocol.mode, ProtocolMode::V4 { fallback: true });
}
