use std::time::Duration;

use shmipc::buffer::manager::{BufferManager, ManagerError};
use shmipc::buffer::slice::{BufferHeader, BufferSlice};
use shmipc::config::{Config, Platform, ProtocolConfig, ProtocolMode, SizePercentPair, WakeupMode};
use shmipc::consts::MemMapType;
use shmipc::error::Error;
use shmipc::protocol::event::{close_event, polling_event_with_version, FallbackDataEvent};
use shmipc::protocol::header::Header;
use shmipc::protocol::initializer::{
    EventFdPair, InitCause, InitError, ProtocolInitialized, V4ClientInitError,
};
use shmipc::protocol::negotiation::NegotiatedFeature;
use shmipc::queue::{QueueElement, QueueLayout, QueueManager};
use shmipc::session::connect::{
    name_paths, ClientConnect, ConnectAction, ConnectError, ConnectEvent, FallbackError,
};
use shmipc::session::delivery::{
    fallback_data, handle_stream_message, recycle_unclaimed, shared_data, Delivery,
};
use shmipc::session::events::{event_is_sound, next_event, EventStep};
use shmipc::session::manager::{Rebuild, RebuildAction, RebuildEvent, RoundRobin};
use shmipc::session::pool::StreamPool;
use shmipc::session::startup::{tasks, StartAction, StartError, StartEvent, Startup};
use shmipc::session::streams::{PutStep, Route, Session};
use shmipc::stats::Stats;
use shmipc::stream::flush::{FlushStep, QUEUE_FULL_RETRY_COUNT};
use shmipc::stream::close::CloseStep;
use shmipc::stream::pending::BufferSliceWrapper;
use shmipc::stream::state::{Stream, STREAM_CLOSED, STREAM_HALF_CLOSED, STREAM_OPENED};
use shmipc::stream::wakeup::{WakeUp, Wakeup};

fn client(max: usize) -> Session {
    Session::new(true, ProtocolInitialized::legacy(3), max)
}

fn server(max: usize) -> Session {
    Session::new(false, ProtocolInitialized::legacy(3), max)
}

#[test]
fn clients_open_odd_streams_and_servers_even_ones() {
    let mut c = client(4);
    assert_eq!(c.open_stream().unwrap(), 1);
    assert_eq!(c.open_stream().unwrap(), 3);
    let mut s = server(4);
    assert_eq!(s.open_stream().unwrap(), 2);
    assert_eq!(s.open_stream().unwrap(), 4);
}

#[test]
fn ids_start_over_and_run_out() {
    let mut c = client(4);
    c.next_stream_id = u32::MAX;
    assert_eq!(c.open_stream().unwrap(), u32::MAX);
    assert_eq!(c.open_stream().unwrap(), 1);
    c.next_stream_id = 1;
    assert!(matches!(c.open_stream(), Err(Error::StreamsExhausted)));
    assert_eq!(c.open_stream().unwrap(), 3);
}

#[test]
fn a_broken_session_tells_why_once() {
    let mut c = client(4);
    c.open_stream().unwrap();
    assert!(c.exit_err(Error::InvalidVersion).is_some());
    assert!(c.is_closed());
    assert_eq!(c.stats_snapshot().event_conn_error_count, 1);
    assert!(matches!(c.open_stream(), Err(Error::InvalidVersion)));
    assert!(matches!(c.open_stream(), Err(Error::SessionShutdown)));
    assert!(c.close().is_none());
}

#[test]
fn the_circuit_breaker_stops_new_streams() {
    let mut c = client(4);
    assert!(!c.open_circuit_breaker(true));
    assert!(c.is_healthy());
    assert!(c.open_circuit_breaker(false));
    assert!(!c.open_circuit_breaker(false));
    assert!(!c.is_healthy());
    assert!(matches!(c.open_stream(), Err(Error::SessionUnhealthy)));
    assert!(matches!(c.get_or_open_stream(|_| true), Err(Error::SessionUnhealthy)));
    c.close_circuit_breaker();
    assert!(c.open_stream().is_ok());
}

#[test]
fn a_pool_keeps_what_it_has_room_for() {
    let mut pool = StreamPool::new(2);
    assert!(pool.pop().is_none());
    pool.push(7).unwrap();
    pool.push(9).unwrap();
    assert!(matches!(pool.push(11), Err(Error::StreamPoolFull)));
    assert_eq!(pool.pop(), Some(7));
    pool.push(13).unwrap();
    assert_eq!(pool.close(), [9, 13]);
    assert!(pool.pop().is_none());
}

#[test]
fn an_open_idle_stream_comes_before_a_new_one() {
    let mut c = client(4);
    for id in [21, 23, 25] {
        c.pool.push(id).unwrap();
    }
    assert_eq!(c.get_or_open_stream(|id| id != 21).unwrap(), 23);
    assert_eq!(c.get_or_open_stream(|_| false).unwrap(), 1);
    assert_eq!(c.get_or_open_stream(|_| true).unwrap(), 3);
}

#[test]
fn data_finds_its_stream() {
    let mut c = client(4);
    let id = c.open_stream().unwrap();
    assert_eq!(c.get_stream(id, STREAM_OPENED), Route::Known);
    assert_eq!(c.get_stream(99, STREAM_OPENED), Route::Nowhere);
    assert!(c.on_stream_close(id));
    assert!(!c.on_stream_close(id));
    assert_eq!(c.get_stream(id, STREAM_OPENED), Route::Nowhere);
    let mut s = server(4);
    assert_eq!(s.get_stream(1, STREAM_CLOSED), Route::Nowhere);
    assert_eq!(s.get_stream(1, STREAM_OPENED), Route::New);
    assert_eq!(s.get_stream(1, STREAM_CLOSED), Route::Known);
}

#[test]
fn sessions_take_turns() {
    let mut none = RoundRobin::new(0);
    assert!(matches!(none.get_stream(), Err(Error::SessionUnhealthy)));
    let mut turns = RoundRobin::new(3);
    let picks: Vec<usize> = (0..128).map(|_| turns.get_stream().unwrap()).collect();
    assert!(picks[..31].iter().all(|&i| i == 0));
    assert!(picks[31..63].iter().all(|&i| i == 1));
    assert!(picks[63..95].iter().all(|&i| i == 2));
    assert!(picks[95..127].iter().all(|&i| i == 0));
    assert_eq!(picks[127], 1);
}

#[test]
fn events_are_read_one_after_the_other() {
    let mut buf = polling_event_with_version(3);
    buf.extend_from_slice(&close_event(3, 77));
    let mut f = FallbackDataEvent::new();
    f.encode(19, 3, 5, 0x100);
    buf.extend_from_slice(f.as_slice());
    buf.extend_from_slice(b"abc");

    let mut s = server(4);
    s.get_stream(77, STREAM_OPENED);
    let (e, effect) = s.handle_events(&buf, 0, false);
    assert!(matches!(e, EventStep::Polling { next: 8, drain: true }));
    assert_eq!(effect.stream, Route::Nowhere);
    assert_eq!(s.stats.recv_polling_event_count, 1);

    let (e, effect) = s.handle_events(&buf, 8, false);
    assert!(matches!(e, EventStep::StreamClose { next: 20, id: 77 }));
    assert_eq!(effect.stream, Route::Known);
    assert!(!s.streams.contains(&77));

    let (e, effect) = s.handle_events(&buf, 20, false);
    match e {
        EventStep::FallbackData { next, seq_id, status, payload } => {
            assert_eq!((next, seq_id, status), (39, 5, 0));
            assert_eq!(payload, b"abc");
        }
        e => panic!("{:?}", e),
    }
    assert_eq!(effect.stream, Route::New);
    assert!(effect.breaker);
    assert!(!s.is_healthy());
    assert_eq!(s.stats.fallback_read_count, 1);

    let (e, _) = s.handle_events(&buf, 39, false);
    assert!(matches!(e, EventStep::Incomplete { required: 8 }));
}

#[test]
fn events_that_are_cut_off_or_wrong_are_told_apart() {
    let none = NegotiatedFeature::NoFeature;
    let close = close_event(3, 77);
    assert!(matches!(
        next_event(&close[..10], 0, none),
        EventStep::Incomplete { required: 12 }
    ));
    let mut f = FallbackDataEvent::new();
    f.encode(19, 3, 5, 0);
    assert!(matches!(
        next_event(f.as_slice(), 0, none),
        EventStep::Incomplete { required: 19 }
    ));
    f.encode(9, 3, 5, 0);
    assert!(!event_is_sound(f.as_slice(), 0));
    assert!(event_is_sound(&close, 0));
    assert!(matches!(
        next_event(&[0u8; 8], 0, none),
        EventStep::Refused { next: 8, error: Error::InvalidVersion }
    ));
    let mut h = Header::new();
    h.encode(8, 3, 4u8.into());
    assert!(matches!(
        next_event(h.as_slice(), 0, none),
        EventStep::Refused { next: 8, error: Error::InvalidMsgType }
    ));
    let polling = polling_event_with_version(0);
    assert!(matches!(
        next_event(&polling, 0, NegotiatedFeature::EventFd),
        EventStep::Polling { next: 8, drain: false }
    ));
}

#[test]
fn paths_are_named_after_the_client() {
    let mut config = Config::default();
    name_paths(&mut config, 2, 0, 0, 4321).unwrap();
    assert_eq!(config.share_memory_path_prefix, "/dev/shm/shmipc_4321");
    assert_eq!(config.queue_path, "/dev/shm/shmipc_4321_queue_2");
    let mut config = Config::default();
    name_paths(&mut config, 0, 5, 6, 1).unwrap();
    assert_eq!(config.share_memory_path_prefix, "/dev/shm/shmipc_1_epoch_5_6");
    assert_eq!(config.queue_path, "/dev/shm/shmipc_1_epoch_5_6_queue_0");
    let mut config = Config::default();
    config.share_memory_path_prefix = "x".repeat(178);
    name_paths(&mut config, 0, 0, 0, 1).unwrap();
    let mut config = Config::default();
    config.share_memory_path_prefix = "x".repeat(179);
    assert!(matches!(name_paths(&mut config, 0, 0, 0, 1), Err(Error::FileNameTooLong)));
    let mut config = Config::default();
    config.share_memory_path_prefix = "x".repeat(179);
    config.mem_map_type = MemMapType::MemMapTypeMemFd;
    assert!(name_paths(&mut config, 0, 0, 0, 1).is_ok());
}

fn no_answer() -> StartError {
    StartError::Init(V4ClientInitError::network_or_protocol(InitCause::Io("EOF".to_owned())))
}

fn refused() -> StartError {
    StartError::Init(V4ClientInitError::unsupported_protocol(3))
}

#[test]
fn a_client_falls_back_once() {
    let v4 = ProtocolConfig {
        mode: ProtocolMode::V4 { fallback: true },
        wakeup: WakeupMode::Default,
    };
    let mut c = ClientConnect::new(v4);
    assert!(matches!(c.step(ConnectEvent::Begin), ConnectAction::Connect));
    assert!(matches!(c.step(ConnectEvent::Connected), ConnectAction::Start(p) if p == v4));
    assert!(matches!(c.step(ConnectEvent::StartFailed(no_answer())), ConnectAction::Connect));
    assert!(matches!(
        c.step(ConnectEvent::Connected),
        ConnectAction::Start(p) if p == ProtocolConfig::default()
    ));
    assert!(matches!(
        c.step(ConnectEvent::StartFailed(refused())),
        ConnectAction::Fail(ConnectError::V4FallbackFailed {
            v4_error: StartError::Init(_),
            fallback_error: FallbackError::Start(_),
        })
    ));

    let mut c = ClientConnect::new(v4);
    c.step(ConnectEvent::Begin);
    c.step(ConnectEvent::Connected);
    c.step(ConnectEvent::StartFailed(no_answer()));
    assert!(matches!(
        c.step(ConnectEvent::ConnectFailed("gone".to_owned())),
        ConnectAction::Fail(ConnectError::V4FallbackFailed {
            fallback_error: FallbackError::Connect(_),
            ..
        })
    ));
}

#[test]
fn a_client_that_is_refused_does_not_fall_back() {
    let mut c = ClientConnect::new(ProtocolConfig {
        mode: ProtocolMode::V4 { fallback: true },
        wakeup: WakeupMode::Default,
    });
    c.step(ConnectEvent::Begin);
    c.step(ConnectEvent::Connected);
    assert!(matches!(
        c.step(ConnectEvent::StartFailed(refused())),
        ConnectAction::Fail(ConnectError::Start(_))
    ));
    let mut c = ClientConnect::new(ProtocolConfig {
        mode: ProtocolMode::V4 { fallback: false },
        wakeup: WakeupMode::Default,
    });
    c.step(ConnectEvent::Begin);
    c.step(ConnectEvent::Connected);
    assert!(matches!(
        c.step(ConnectEvent::StartFailed(no_answer())),
        ConnectAction::Fail(ConnectError::Start(_))
    ));
    let mut c = ClientConnect::new(ProtocolConfig::default());
    c.step(ConnectEvent::Begin);
    assert!(matches!(
        c.step(ConnectEvent::ConnectFailed("no".to_owned())),
        ConnectAction::Fail(ConnectError::Connect(_))
    ));
}

#[test]
fn a_client_comes_up_or_gives_the_memory_back() {
    let platform = Platform::linux_amd64();
    let mut s = Startup::new(Config::default().with_v4(), platform, true);
    assert!(matches!(s.step(StartEvent::Begin), StartAction::SetBlocking));
    assert!(matches!(s.step(StartEvent::Done), StartAction::CreateManagers(4)));
    assert!(matches!(s.step(StartEvent::Done), StartAction::AgreeAsClient));
    let initialized = ProtocolInitialized::legacy(3);
    let agreed = StartEvent::Agreed { initialized, shared_memory: false };
    assert!(matches!(s.step(agreed), StartAction::SetNonblocking));
    assert!(matches!(s.step(StartEvent::Done), StartAction::Ready(i) if i == initialized));

    let mut s = Startup::new(Config::default(), platform, true);
    s.step(StartEvent::Begin);
    assert!(matches!(s.step(StartEvent::Done), StartAction::CreateManagers(2)));
    s.step(StartEvent::Done);
    let e = InitError::UnsupportedVersion(9);
    assert!(matches!(s.step(StartEvent::NotAgreed(e)), StartAction::Release));
    assert!(matches!(
        s.step(StartEvent::Done),
        StartAction::Fail(StartError::Init(InitError::UnsupportedVersion(9)))
    ));

    let mut s = Startup::new(Config::default(), platform, true);
    s.step(StartEvent::Begin);
    assert!(matches!(
        s.step(StartEvent::Failed("ioctl".to_owned())),
        StartAction::Fail(StartError::Blocking(_))
    ));
    let mut s = Startup::new(Config::default(), platform, true);
    s.step(StartEvent::Begin);
    s.step(StartEvent::Done);
    assert!(matches!(
        s.step(StartEvent::Failed("mmap".to_owned())),
        StartAction::Fail(StartError::Managers(_))
    ));
}

#[test]
fn a_server_comes_up_with_shared_memory_only() {
    let platform = Platform::linux_amd64();
    let initialized = ProtocolInitialized::legacy(2);
    let mut s = Startup::new(Config::default(), platform, false);
    s.step(StartEvent::Begin);
    assert!(matches!(s.step(StartEvent::Done), StartAction::AgreeAsServer));
    assert!(matches!(
        s.step(StartEvent::Agreed { initialized, shared_memory: false }),
        StartAction::Fail(StartError::NoSharedMemory)
    ));
    let mut bad = Config::default();
    bad.queue_path.clear();
    let mut s = Startup::new(bad, platform, false);
    assert!(matches!(s.step(StartEvent::Begin), StartAction::Fail(StartError::Config(_))));
}

#[test]
fn a_session_has_the_tasks_that_were_agreed_on() {
    let t = tasks(&ProtocolInitialized::legacy(3));
    assert!(t.polling.is_none() && t.eventfd.is_none());
    let t = tasks(&ProtocolInitialized::new(
        4,
        0,
        NegotiatedFeature::EventQueuePolling { interval: Duration::from_micros(7) },
        None,
    ));
    assert_eq!(t.polling, Some(Duration::from_micros(7)));
    let t = tasks(&ProtocolInitialized::new(
        4,
        0,
        NegotiatedFeature::EventFd,
        Some(EventFdPair { wakeup_send: 3, wakeup_recv: 4 }),
    ));
    assert_eq!(t.eventfd, Some(4));
}

struct World {
    mem: Vec<u8>,
    queue_mem: Vec<u8>,
    client_bm: BufferManager,
    server_bm: BufferManager,
    client_q: QueueManager,
    server_q: QueueManager,
}

fn world(region: usize, slice: u32, queue_cap: u32) -> World {
    let mut mem = vec![0u8; region];
    let pairs = [SizePercentPair { size: slice, percent: 100 }];
    let client_bm = BufferManager::create(&pairs, "b", &mut mem, 0).unwrap();
    let server_bm = BufferManager::mapping("b", &mem, 0).unwrap();
    let layout = QueueLayout::Legacy;
    let mut queue_mem = vec![0u8; 2 * (24 + 12 * queue_cap as usize)];
    let client_q = QueueManager::create_with_file(&mut queue_mem, "q", queue_cap, layout);
    let server_q = QueueManager::mapping_with_file(&queue_mem, "q", layout).unwrap();
    World { mem, queue_mem, client_bm, server_bm, client_q, server_q }
}

fn wakeup() -> Wakeup {
    Wakeup { feature: NegotiatedFeature::NoFeature, has_eventfd: false, msg_version: 3 }
}

#[test]
fn what_is_flushed_through_shared_memory_arrives() {
    let mut w = world(1 << 20, 4096, 8);
    let mut stats = Stats::default();
    let mut sender = Stream::new(1, 0);
    let data: Vec<u8> = (0..10000u32).map(|i| (i * 7) as u8).collect();
    sender.write_bytes(&w.client_bm, &mut w.mem, &data).unwrap();
    let step = sender.flush(
        &w.client_bm,
        &mut w.mem,
        &w.client_q.send_queue,
        &mut w.queue_mem,
        &wakeup(),
        &mut stats,
        false,
    );
    let message = match step {
        FlushStep::Queued(WakeUp::Send(m)) => m,
        s => panic!("{:?}", s),
    };

    let mut s = server(4);
    let (e, _) = s.handle_events(&message, 0, false);
    assert!(matches!(e, EventStep::Polling { drain: true, .. }));
    let delivery = s.next_delivery(&w.server_q.recv_queue, &mut w.queue_mem);
    let offset = match delivery {
        Delivery::ToStream { id: 1, is_new: true, state: STREAM_OPENED, offset } => offset,
        d => panic!("{:?}", d),
    };
    assert_eq!(
        s.next_delivery(&w.server_q.recv_queue, &mut w.queue_mem),
        Delivery::Empty
    );
    assert!(w.server_q.recv_queue.mark_not_working(&mut w.queue_mem));

    let mut receiver = Stream::new(1, 0);
    assert!(handle_stream_message(
        &mut receiver,
        &w.server_bm,
        &mut w.mem,
        shared_data(offset),
        STREAM_OPENED
    ));
    assert!(receiver.read_more(&w.server_bm, &mut w.mem, &mut stats, data.len()).unwrap());
    let (bytes, lease) =
        receiver.read_exact_bytes(&w.server_bm, &mut w.mem, data.len()).unwrap().into_bytes();
    assert_eq!(bytes, data);
    if let Some(lease) = lease {
        receiver.release_lease(&w.server_bm, &mut w.mem, lease);
    }
    assert_eq!(stats.in_flow_bytes, data.len() as u64);
    assert_eq!(stats.out_flow_bytes, data.len() as u64);
}

#[test]
fn what_does_not_fit_shared_memory_goes_over_the_connection() {
    let mut w = world(16 << 10, 1024, 8);
    let mut stats = Stats::default();
    let mut sender = Stream::new(1, 0);
    let data: Vec<u8> = (0..50000u32).map(|i| (i * 11) as u8).collect();
    sender.write_bytes(&w.client_bm, &mut w.mem, &data).unwrap();
    let message = match sender.flush(
        &w.client_bm,
        &mut w.mem,
        &w.client_q.send_queue,
        &mut w.queue_mem,
        &wakeup(),
        &mut stats,
        false,
    ) {
        FlushStep::Fallback(m) => m,
        s => panic!("{:?}", s),
    };
    assert!(sender.fallback_state());
    assert!(w.client_bm.check_buffer_returned(&w.mem));

    let mut s = server(4);
    assert!(event_is_sound(&message, 0));
    let payload = match s.handle_events(&message, 0, false) {
        (EventStep::FallbackData { seq_id: 1, status: STREAM_OPENED, payload, .. }, effect) => {
            assert_eq!(effect.stream, Route::New);
            payload
        }
        e => panic!("{:?}", e),
    };
    let mut receiver = Stream::new(1, 0);
    assert!(handle_stream_message(
        &mut receiver,
        &w.server_bm,
        &mut w.mem,
        fallback_data(payload),
        STREAM_OPENED
    ));
    assert!(receiver.read_more(&w.server_bm, &mut w.mem, &mut stats, data.len()).unwrap());
    let (bytes, _) =
        receiver.read_exact_bytes(&w.server_bm, &mut w.mem, data.len()).unwrap().into_bytes();
    assert_eq!(bytes, data);
    assert!(receiver.fallback_state());

    // the stream is not used again after that
    let mut c = client(4);
    assert!(matches!(
        c.put_or_close_stream(&mut sender, &w.client_bm, &mut w.mem),
        PutStep::CloseFallback
    ));
    // and closing it is told over the connection
    let (notify, step) = sender.close(
        &w.client_bm,
        &mut w.mem,
        &w.client_q.send_queue,
        &mut w.queue_mem,
        &wakeup(),
        &mut stats,
        false,
    );
    assert!(notify);
    match step {
        CloseStep::Send(m) => assert_eq!(m, close_event(3, 1)),
        s => panic!("{:?}", s),
    }
}

#[test]
fn data_for_nobody_is_given_back() {
    let mut w = world(1 << 20, 4096, 8);
    let mut stats = Stats::default();
    let mut sender = Stream::new(9, 0);
    sender.write_bytes(&w.client_bm, &mut w.mem, &[1u8; 9000]).unwrap();
    assert!(matches!(
        sender.flush(
            &w.server_bm,
            &mut w.mem,
            &w.server_q.send_queue,
            &mut w.queue_mem,
            &wakeup(),
            &mut stats,
            false,
        ),
        FlushStep::Queued(_)
    ));
    assert!(!w.client_bm.check_buffer_returned(&w.mem));
    let mut c = client(4);
    let offset = match c.next_delivery(&w.client_q.recv_queue, &mut w.queue_mem) {
        Delivery::Unclaimed { offset } => offset,
        d => panic!("{:?}", d),
    };
    recycle_unclaimed(&w.client_bm, &mut w.mem, offset).unwrap();
    assert!(w.client_bm.check_buffer_returned(&w.mem));
    let len = w.mem.len();
    assert_eq!(
        recycle_unclaimed(&w.client_bm, &mut w.mem, len as u32),
        Err(ManagerError::UnexpectedOffset { offset: len as u32, mem_len: len })
    );
    w.server_q
        .send_queue
        .put(
            &mut w.queue_mem,
            QueueElement { seq_id: 9, offset_in_shm_buf: 0, status: STREAM_CLOSED },
        )
        .unwrap();
    assert_eq!(
        c.next_delivery(&w.client_q.recv_queue, &mut w.queue_mem),
        Delivery::Ignored
    );
}

#[test]
fn a_peer_that_closes_ends_the_stream() {
    let mut w = world(1 << 20, 4096, 8);
    let mut stats = Stats::default();
    let mut sender = Stream::new(1, 0);
    let (_, step) = sender.close(
        &w.client_bm,
        &mut w.mem,
        &w.client_q.send_queue,
        &mut w.queue_mem,
        &wakeup(),
        &mut stats,
        false,
    );
    assert!(matches!(step, CloseStep::Queued(_)));
    let mut s = server(4);
    s.get_stream(1, STREAM_OPENED);
    let state = match s.next_delivery(&w.server_q.recv_queue, &mut w.queue_mem) {
        Delivery::ToStream { id: 1, is_new: false, state, .. } => state,
        d => panic!("{:?}", d),
    };
    assert_eq!(state, STREAM_CLOSED);
    let mut receiver = Stream::new(1, 0);
    assert!(handle_stream_message(
        &mut receiver,
        &w.server_bm,
        &mut w.mem,
        shared_data(0),
        state
    ));
    assert_eq!(receiver.state, STREAM_HALF_CLOSED);
    assert!(matches!(
        receiver.read_more(&w.server_bm, &mut w.mem, &mut stats, 1),
        Err(Error::EndOfStream)
    ));
}

#[test]
fn retry_queue_put_reports_persistent_queue_full() {
    let mut w = world(1 << 20, 4096, 1);
    let mut stats = Stats::default();
    w.client_q
        .send_queue
        .put(&mut w.queue_mem, QueueElement { seq_id: 0, offset_in_shm_buf: 0, status: 0 })
        .unwrap();
    let mut sender = Stream::new(1, 0);
    sender.write_bytes(&w.client_bm, &mut w.mem, b"x").unwrap();
    assert!(matches!(
        sender.flush(
            &w.client_bm,
            &mut w.mem,
            &w.client_q.send_queue,
            &mut w.queue_mem,
            &wakeup(),
            &mut stats,
            false,
        ),
        FlushStep::QueueFull
    ));
    assert_eq!(stats.queue_full_error_count, 1);
    let mut attempts = 0;
    let err = loop {
        let step = sender.retry_flush(
            &w.client_bm,
            &mut w.mem,
            &w.client_q.send_queue,
            &mut w.queue_mem,
            &wakeup(),
            &mut stats,
            attempts,
            false,
        );
        attempts += 1;
        match step {
            FlushStep::QueueFull => {}
            FlushStep::Failed(e) => break e,
            s => panic!("{:?}", s),
        }
    };
    assert!(matches!(err, Error::QueueFull));
    assert_eq!(attempts, QUEUE_FULL_RETRY_COUNT);
}

#[test]
fn a_stream_that_was_read_to_the_end_is_kept() {
    let mut w = world(1 << 20, 4096, 8);
    let mut c = client(1);
    let mut stream = Stream::new(1, 0);
    assert!(matches!(
        c.put_or_close_stream(&mut stream, &w.client_bm, &mut w.mem),
        PutStep::Kept
    ));
    let mut other = Stream::new(3, 0);
    assert!(matches!(
        c.put_or_close_stream(&mut other, &w.client_bm, &mut w.mem),
        PutStep::Close(Error::StreamPoolFull)
    ));
    assert_eq!(c.get_or_open_stream(|_| true).unwrap(), 1);
    let mut busy = Stream::new(5, 0);
    handle_stream_message(
        &mut busy,
        &w.client_bm,
        &mut w.mem,
        fallback_data(b"rest".to_vec()),
        STREAM_OPENED,
    );
    assert!(matches!(
        c.put_or_close_stream(&mut busy, &w.client_bm, &mut w.mem),
        PutStep::Close(Error::StreamHasPendingData(1))
    ));
    let mut stats = Stats::default();
    busy.read_more(&w.client_bm, &mut w.mem, &mut stats, 1).unwrap();
    busy.in_fallback_state = false;
    assert!(matches!(
        c.put_or_close_stream(&mut busy, &w.client_bm, &mut w.mem),
        PutStep::Close(Error::StreamHasUnreadData(4))
    ));
    let mut closed = Stream::new(7, 0);
    assert!(closed.half_close());
    assert!(matches!(
        c.put_or_close_stream(&mut closed, &w.client_bm, &mut w.mem),
        PutStep::Close(Error::StreamClosed)
    ));
}

#[test]
fn the_peer_is_woken_once_and_as_agreed() {
    let mut w = world(1 << 20, 4096, 8);
    let mut stats = Stats::default();
    let q = &w.client_q.send_queue;
    let polling = Wakeup {
        feature: NegotiatedFeature::EventQueuePolling { interval: Duration::from_micros(1) },
        has_eventfd: false,
        msg_version: 0,
    };
    assert!(matches!(polling.wake_up_peer(q, &mut w.queue_mem, &mut stats), WakeUp::Nothing));
    let eventfd =
        Wakeup { feature: NegotiatedFeature::EventFd, has_eventfd: true, msg_version: 0 };
    assert!(matches!(eventfd.wake_up_peer(q, &mut w.queue_mem, &mut stats), WakeUp::EventFd));
    assert!(matches!(eventfd.wake_up_peer(q, &mut w.queue_mem, &mut stats), WakeUp::Nothing));
    assert_eq!(stats.send_polling_event_count, 1);
}

#[test]
fn a_buffer_that_was_read_carries_the_answer() {
    let mut w = world(1 << 20, 4096, 8);
    let mut stats = Stats::default();
    let mut near = Stream::new(1, 0);
    near.write_bytes(&w.client_bm, &mut w.mem, b"ping").unwrap();
    assert!(matches!(
        near.flush(
            &w.client_bm,
            &mut w.mem,
            &w.client_q.send_queue,
            &mut w.queue_mem,
            &wakeup(),
            &mut stats,
            false,
        ),
        FlushStep::Queued(WakeUp::Send(_))
    ));
    let asked = w.server_q.recv_queue.pop(&mut w.queue_mem).unwrap();

    let mut far = Stream::new(1, 0);
    far.fill_data_to_read_buffer(&w.server_bm, &mut w.mem, shared_data(asked.offset_in_shm_buf));
    assert!(far.read_more(&w.server_bm, &mut w.mem, &mut stats, 4).unwrap());
    let (ping, lease) =
        far.read_exact_bytes(&w.server_bm, &mut w.mem, 4).unwrap().into_bytes();
    assert_eq!(ping, &b"ping"[..]);
    far.release_lease(&w.server_bm, &mut w.mem, lease.unwrap());
    let free = w.server_bm.slice_size(&w.mem);
    far.release_read_and_reuse(&w.server_bm, &mut w.mem);
    far.write_bytes(&w.server_bm, &mut w.mem, b"pong").unwrap();
    assert_eq!(w.server_bm.slice_size(&w.mem), free);
    assert!(matches!(
        far.flush(
            &w.server_bm,
            &mut w.mem,
            &w.server_q.send_queue,
            &mut w.queue_mem,
            &wakeup(),
            &mut stats,
            false,
        ),
        FlushStep::Queued(WakeUp::Send(_))
    ));
    let answered = w.client_q.recv_queue.pop(&mut w.queue_mem).unwrap();
    assert_eq!(answered.offset_in_shm_buf, asked.offset_in_shm_buf);
    near.fill_data_to_read_buffer(
        &w.client_bm,
        &mut w.mem,
        shared_data(answered.offset_in_shm_buf),
    );
    assert!(near.read_more(&w.client_bm, &mut w.mem, &mut stats, 4).unwrap());
    let (pong, lease) =
        near.read_exact_bytes(&w.client_bm, &mut w.mem, 4).unwrap().into_bytes();
    assert_eq!(pong, &b"pong"[..]);
    near.release_lease(&w.client_bm, &mut w.mem, lease.unwrap());
    near.clean_local_buffers(&w.client_bm, &mut w.mem);
    assert_eq!(w.client_bm.slice_size(&w.mem), free + 1);
}

#[test]
fn a_batch_needs_one_wakeup() {
    let mut w = world(1 << 20, 4096, 8);
    let mut stats = Stats::default();
    let mut woken = 0;
    for id in 0..5 {
        let mut s = Stream::new(2 * id + 1, 0);
        s.write_bytes(&w.client_bm, &mut w.mem, &[id as u8]).unwrap();
        match s.flush(
            &w.client_bm,
            &mut w.mem,
            &w.client_q.send_queue,
            &mut w.queue_mem,
            &wakeup(),
            &mut stats,
            false,
        ) {
            FlushStep::Queued(WakeUp::Send(_)) => woken += 1,
            FlushStep::Queued(WakeUp::Nothing) => {}
            s => panic!("{:?}", s),
        }
    }
    assert_eq!(woken, 1);
    assert!(!w.server_q.recv_queue.mark_not_working(&mut w.queue_mem));
    let mut s = server(8);
    for id in 0..5 {
        assert!(matches!(
            s.next_delivery(&w.server_q.recv_queue, &mut w.queue_mem),
            Delivery::ToStream { id: got, is_new: true, .. } if got == 2 * id + 1
        ));
    }
    assert!(w.server_q.recv_queue.mark_not_working(&mut w.queue_mem));
}

#[test]
fn a_pin_outlives_its_stream() {
    let mut w = world(1 << 20, 4096, 8);
    let bm = &w.client_bm;
    let q = &w.client_q.send_queue;
    let mut stats = Stats::default();
    let mut near = Stream::new(1, 0);
    let mut far = Stream::new(1, 0);
    let data: Vec<u8> = (0..9000u32).map(|i| (i * 3) as u8).collect();
    for part in data.chunks(6000) {
        near.write_bytes(bm, &mut w.mem, part).unwrap();
        near.flush(bm, &mut w.mem, q, &mut w.queue_mem, &wakeup(), &mut stats, false);
        let sent = q.pop(&mut w.queue_mem).unwrap();
        far.fill_data_to_read_buffer(bm, &mut w.mem, shared_data(sent.offset_in_shm_buf));
    }
    assert!(far.read_more(bm, &mut w.mem, &mut stats, 9000).unwrap());
    assert_eq!(far.recv_buf.slice_list().size(), 3);
    let at = far.recv_buf.slice_list().get(0).offset_in_shm as usize;
    let (_, lease) = far.read_exact_bytes(bm, &mut w.mem, 100).unwrap().into_bytes();
    // Past the first slice, which waits; the second went back.
    far.discard(bm, &mut w.mem, 7000).unwrap();
    assert_eq!(far.recv_buf.slice_list().size(), 1);
    assert_eq!(far.recv_buf.pin_registry().retired_len(), 1);
    far.close(bm, &mut w.mem, q, &mut w.queue_mem, &wakeup(), &mut stats, true);
    assert_eq!(far.recv_buf.slice_list().size(), 0);
    assert_eq!(far.recv_buf.pin_registry().retired_len(), 1);
    assert!(!bm.check_buffer_returned(&w.mem));
    assert_eq!(&w.mem[at + 20..at + 20 + 4096], &data[..4096]);
    far.release_lease(bm, &mut w.mem, lease.unwrap());
    assert!(bm.check_buffer_returned(&w.mem));
}

#[test]
fn a_kept_stream_writes_to_the_slice_that_it_read() {
    let mut w = world(1 << 20, 4096, 8);
    let bm = &w.client_bm;
    let q = &w.client_q.send_queue;
    let mut stats = Stats::default();
    let mut near = Stream::new(3, 0);
    near.write_bytes(bm, &mut w.mem, b"ask").unwrap();
    near.flush(bm, &mut w.mem, q, &mut w.queue_mem, &wakeup(), &mut stats, false);
    let sent = q.pop(&mut w.queue_mem).unwrap();
    let mut far = Stream::new(3, 0);
    far.fill_data_to_read_buffer(bm, &mut w.mem, shared_data(sent.offset_in_shm_buf));
    assert!(far.read_more(bm, &mut w.mem, &mut stats, 3).unwrap());
    let (_, lease) = far.read_exact_bytes(bm, &mut w.mem, 3).unwrap().into_bytes();
    far.release_lease(bm, &mut w.mem, lease.unwrap());
    let mut c = client(4);
    assert!(matches!(c.put_or_close_stream(&mut far, bm, &mut w.mem), PutStep::Kept));
    assert_eq!(far.recv_buf.slice_list().size(), 0);
    assert_eq!(far.send_buf.slice_list().size(), 1);
    let slice = far.send_buf.slice_list().get(0);
    assert_eq!(slice.offset_in_shm, sent.offset_in_shm_buf);
    assert_eq!((slice.read_index, slice.write_index), (0, 0));
    let header = slice.buffer_header.unwrap();
    assert!(header.is_in_used(&w.mem) && !header.has_next(&w.mem));
    assert_eq!((header.size(&w.mem), header.start(&w.mem)), (0, 0));
}

#[test]
fn a_pin_goes_with_the_buffer_that_is_reused() {
    let mut w = world(1 << 20, 4096, 8);
    let bm = &w.client_bm;
    let q = &w.client_q.send_queue;
    let mut stats = Stats::default();
    let mut near = Stream::new(1, 0);
    near.write_bytes(bm, &mut w.mem, &[7u8; 4196]).unwrap();
    near.flush(bm, &mut w.mem, q, &mut w.queue_mem, &wakeup(), &mut stats, false);
    let sent = q.pop(&mut w.queue_mem).unwrap();
    let mut far = Stream::new(1, 0);
    far.fill_data_to_read_buffer(bm, &mut w.mem, shared_data(sent.offset_in_shm_buf));
    assert!(far.read_more(bm, &mut w.mem, &mut stats, 4196).unwrap());
    let (_, lease) = far.read_exact_bytes(bm, &mut w.mem, 100).unwrap().into_bytes();
    far.discard(bm, &mut w.mem, 4096).unwrap();
    far.release_read_and_reuse(bm, &mut w.mem);
    assert_eq!(far.recv_buf.pin_registry().retired_len(), 0);
    assert_eq!(far.send_buf.pin_registry().retired_len(), 1);
    far.release_lease_after_reuse(bm, &mut w.mem, lease.unwrap());
    assert_eq!(far.send_buf.pin_registry().retired_len(), 0);
    assert_eq!(far.send_buf.slice_list().size(), 1);
    far.clean_local_buffers(bm, &mut w.mem);
    assert!(bm.check_buffer_returned(&w.mem));
}

/// Flushes 9000 bytes in three buffers.
fn three_buffers(w: &mut World) -> (Vec<u8>, Vec<u32>) {
    let data: Vec<u8> = (0..9000u32).map(|i| (i * 11) as u8).collect();
    let mut near = Stream::new(1, 0);
    near.write_bytes(&w.client_bm, &mut w.mem, &data).unwrap();
    let q = &w.client_q.send_queue;
    let mut stats = Stats::default();
    near.flush(&w.client_bm, &mut w.mem, q, &mut w.queue_mem, &wakeup(), &mut stats, false);
    let sent = w.server_q.recv_queue.pop(&mut w.queue_mem).unwrap();
    let chain = w.client_bm.find_chain(&w.mem, sent.offset_in_shm_buf).unwrap();
    assert_eq!(chain.len(), 3);
    assert_eq!(chain[0], sent.offset_in_shm_buf);
    (data, chain)
}

#[test]
fn what_came_before_a_broken_link_is_kept() {
    let mut w = world(1 << 20, 4096, 8);
    let (data, chain) = three_buffers(&mut w);
    let bm = &w.client_bm;
    BufferHeader(chain[1] as usize).link_next(&mut w.mem, 1 << 20);
    let mut far = Stream::new(1, 0);
    let mut stats = Stats::default();
    assert!(far.admits(bm, &w.mem, &shared_data(chain[0])));
    far.fill_data_to_read_buffer(bm, &mut w.mem, shared_data(chain[0]));
    far.fill_data_to_read_buffer(bm, &mut w.mem, fallback_data(vec![9; 5]));
    far.move_pending_data(bm, &mut w.mem, &mut stats);
    assert_eq!(far.pending_data.len(), 0);
    assert_eq!(far.recv_buf.len(), 8192 + 5);
    assert_eq!(stats.in_flow_bytes, 8192 + 5);
    let (out, lease) = far.read_exact_bytes(bm, &mut w.mem, 8192 + 5).unwrap().into_bytes();
    assert!(lease.is_none());
    assert_eq!(&out[..8192], &data[..8192]);
    assert_eq!(&out[8192..], &[9; 5]);
    far.clean_local_buffers(bm, &mut w.mem);
    assert!(!bm.check_buffer_returned(&w.mem));
    recycle_unclaimed(bm, &mut w.mem, chain[2]).unwrap();
    assert!(bm.check_buffer_returned(&w.mem));
}

#[test]
fn what_came_before_a_broken_link_is_given_back() {
    let mut w = world(1 << 20, 4096, 8);
    let (_, chain) = three_buffers(&mut w);
    let bm = &w.client_bm;
    let all = bm.lists[0].remain(&w.mem);
    BufferHeader(chain[1] as usize).link_next(&mut w.mem, u32::MAX);
    let mut far = Stream::new(1, 0);
    far.fill_data_to_read_buffer(bm, &mut w.mem, shared_data(chain[0]));
    far.fill_data_to_read_buffer(bm, &mut w.mem, shared_data(chain[2]));
    far.clean_pending_data(bm, &mut w.mem);
    assert_eq!(far.pending_data.len(), 0);
    assert_eq!(bm.lists[0].remain(&w.mem), all + 3);
    assert!(bm.check_buffer_returned(&w.mem));

    let (_, chain) = three_buffers(&mut w);
    let bm = &w.client_bm;
    BufferHeader(chain[0] as usize).link_next(&mut w.mem, (1 << 20) - 20);
    recycle_unclaimed(bm, &mut w.mem, chain[0]).unwrap();
    assert_eq!(bm.lists[0].remain(&w.mem), all + 1);
    recycle_unclaimed(bm, &mut w.mem, chain[1]).unwrap();
    assert!(bm.check_buffer_returned(&w.mem));
}

#[test]
fn what_no_peer_sends_is_noticed() {
    let mut w = world(1 << 20, 4096, 8);
    let (_, chain) = three_buffers(&mut w);
    let bm = &w.server_bm;
    assert!(shared_data(chain[0]).is_in_order(bm, &w.mem));
    assert_eq!(shared_data(chain[0]).buffers(bm, &w.mem), chain);
    assert!(shared_data(1 << 20).is_in_order(bm, &w.mem));
    assert!(shared_data(1 << 20).buffers(bm, &w.mem).is_empty());
    assert!(shared_data(u32::MAX).is_in_order(bm, &w.mem));
    assert!(!shared_data(0).is_in_order(bm, &w.mem));
    assert!(!shared_data(chain[0] + 1).is_in_order(bm, &w.mem));
    let mut looped = w.mem.clone();
    BufferHeader(chain[2] as usize).link_next(&mut looped, chain[0]);
    assert!(!shared_data(chain[0]).is_in_order(bm, &looped));
    let mut long = w.mem.clone();
    BufferHeader(chain[2] as usize).set_start(&mut long, 4096);
    assert!(!shared_data(chain[0]).is_in_order(bm, &long));

    assert!(fallback_data(vec![1; 7]).is_in_order(bm, &w.mem));
    assert!(fallback_data(vec![1; 7]).buffers(bm, &w.mem).is_empty());
    let heap = |read_index: usize, write_index: usize| {
        let mut s = BufferSlice::new_heap(vec![1; 7]);
        s.read_index = read_index;
        s.write_index = write_index;
        BufferSliceWrapper { fallback_slice: Some(s), offset: 0 }
    };
    assert!(heap(2, 7).is_in_order(bm, &w.mem));
    assert!(!heap(2, 8).is_in_order(bm, &w.mem));
    assert!(!heap(3, 2).is_in_order(bm, &w.mem));
    let shared = bm.read_buffer_slice(&w.mem, chain[0]).unwrap();
    let wrong = BufferSliceWrapper { fallback_slice: Some(shared), offset: 0 };
    assert!(!wrong.is_in_order(bm, &w.mem));

    // Nobody gets the same buffers twice.
    let mut far = Stream::new(1, 0);
    let mut stats = Stats::default();
    far.fill_data_to_read_buffer(bm, &mut w.mem, shared_data(chain[0]));
    assert!(!far.admits(bm, &w.mem, &shared_data(chain[0])));
    assert!(!far.admits(bm, &w.mem, &shared_data(chain[2])));
    assert!(far.admits(bm, &w.mem, &fallback_data(vec![1; 7])));
    assert!(far.admits(bm, &w.mem, &shared_data(1 << 20)));
    far.move_pending_data(bm, &mut w.mem, &mut stats);
    assert!(!far.admits(bm, &w.mem, &shared_data(chain[2])));
    assert!(Stream::new(3, 0).admits(bm, &w.mem, &shared_data(chain[2])));
    far.write_bytes(bm, &mut w.mem, b"answer").unwrap();
    let own = far.send_buf.slice_list().get(0).offset_in_shm;
    assert!(!far.admits(bm, &w.mem, &shared_data(own)));
}

#[test]
fn a_session_that_goes_down_is_brought_up_again() {
    let (mut rebuild, action) = Rebuild::new();
    assert_eq!(action, RebuildAction::Watch);
    assert_eq!(rebuild.step(RebuildEvent::SessionDown), RebuildAction::Sleep);
    for _ in 0..3 {
        assert_eq!(rebuild.step(RebuildEvent::Slept), RebuildAction::Connect);
        assert_eq!(rebuild.step(RebuildEvent::Failed), RebuildAction::Sleep);
    }
    assert_eq!(rebuild.step(RebuildEvent::Slept), RebuildAction::Connect);
    assert_eq!(rebuild.step(RebuildEvent::Rebuilt), RebuildAction::Watch);
    assert_eq!(rebuild, Rebuild::Watching);
    assert_eq!(rebuild.step(RebuildEvent::ManagerDown), RebuildAction::Stop);
    assert_eq!(rebuild, Rebuild::Stopped);
}

#[test]
fn a_batch_of_flushes_wakes_the_peer_once() {
    let mut w = world(1 << 20, 4096, 4);
    let bm = &w.client_bm;
    let (send, recv) = (&w.client_q.send_queue, &w.client_q.recv_queue);
    let mut stats = Stats::default();
    // Something waits in the other direction as well.
    let back = QueueElement { seq_id: 8, offset_in_shm_buf: 77, status: STREAM_OPENED };
    recv.put(&mut w.queue_mem, back).unwrap();
    let other = w.queue_mem[24 + 12 * 4..].to_vec();
    let mut flush = |w_mem: &mut Vec<u8>, qm: &mut Vec<u8>, id: u32, closes: bool| {
        let mut s = Stream::new(id, 0);
        if closes {
            let (_, step) = s.close(bm, w_mem, send, qm, &wakeup(), &mut stats, false);
            return match step {
                CloseStep::Queued(up) => up,
                step => panic!("{:?}", step),
            };
        }
        s.write_bytes(bm, w_mem, &[id as u8; 10]).unwrap();
        match s.flush(bm, w_mem, send, qm, &wakeup(), &mut stats, false) {
            FlushStep::Queued(up) => up,
            step => panic!("{:?}", step),
        }
    };
    assert!(!send.consumer_is_working(&w.queue_mem));
    assert!(matches!(flush(&mut w.mem, &mut w.queue_mem, 1, false), WakeUp::Send(_)));
    assert!(send.consumer_is_working(&w.queue_mem));
    assert!(matches!(flush(&mut w.mem, &mut w.queue_mem, 3, false), WakeUp::Nothing));
    assert!(matches!(flush(&mut w.mem, &mut w.queue_mem, 5, true), WakeUp::Nothing));
    assert_eq!(send.pop(&mut w.queue_mem).unwrap().seq_id, 1);
    assert!(matches!(flush(&mut w.mem, &mut w.queue_mem, 7, false), WakeUp::Nothing));
    assert_eq!(&w.queue_mem[24 + 12 * 4..], &other[..]);
    for id in [3, 5, 7] {
        assert!(!send.mark_not_working(&mut w.queue_mem));
        assert_eq!(send.pop(&mut w.queue_mem).unwrap().seq_id, id);
    }
    assert!(send.mark_not_working(&mut w.queue_mem));
    // The peer went to sleep: the next one wakes it again.
    assert!(matches!(flush(&mut w.mem, &mut w.queue_mem, 9, true), WakeUp::Send(_)));
    assert!(matches!(flush(&mut w.mem, &mut w.queue_mem, 11, false), WakeUp::Nothing));
    assert_eq!(&w.queue_mem[24 + 12 * 4..], &other[..]);
    assert_eq!(recv.pop(&mut w.queue_mem).unwrap(), back);
    assert_eq!(stats.send_polling_event_count, 2);
}

#[test]
fn a_flush_that_is_tried_again_marks_the_queue() {
    let mut w = world(1 << 20, 4096, 1);
    let bm = &w.client_bm;
    let q = &w.client_q.send_queue;
    let mut stats = Stats::default();
    q.put(
        &mut w.queue_mem,
        QueueElement { seq_id: 1, offset_in_shm_buf: 0, status: STREAM_CLOSED },
    )
    .unwrap();
    let other = w.queue_mem[24 + 12..].to_vec();
    let mut s = Stream::new(3, 0);
    s.write_bytes(bm, &mut w.mem, b"late").unwrap();
    let step = s.flush(bm, &mut w.mem, q, &mut w.queue_mem, &wakeup(), &mut stats, false);
    assert!(matches!(step, FlushStep::QueueFull));
    assert!(!q.consumer_is_working(&w.queue_mem));
    q.pop(&mut w.queue_mem).unwrap();
    let step =
        s.retry_flush(bm, &mut w.mem, q, &mut w.queue_mem, &wakeup(), &mut stats, 0, false);
    assert!(matches!(step, FlushStep::Queued(WakeUp::Send(_))));
    assert!(q.consumer_is_working(&w.queue_mem));
    assert_eq!(&w.queue_mem[24 + 12..], &other[..]);
}

#[test]
fn a_delivery_leaves_the_flag_and_the_other_queue() {
    let mut w = world(1 << 20, 4096, 2);
    let q = &w.server_q.recv_queue;
    let element = QueueElement { seq_id: 5, offset_in_shm_buf: 40, status: STREAM_OPENED };
    w.client_q.send_queue.put(&mut w.queue_mem, element).unwrap();
    assert!(q.mark_working(&mut w.queue_mem));
    let other = w.queue_mem[24 + 12 * 2..].to_vec();
    let mut s = server(4);
    assert_eq!(
        s.next_delivery(q, &mut w.queue_mem),
        Delivery::ToStream { id: 5, is_new: true, state: STREAM_OPENED, offset: 40 }
    );
    assert!(q.consumer_is_working(&w.queue_mem));
    assert_eq!(&w.queue_mem[24 + 12 * 2..], &other[..]);
    assert_eq!(s.next_delivery(q, &mut w.queue_mem), Delivery::Empty);
}

#[test]
fn what_came_in_is_counted_before_it_is_taken_up() {
    let mut w = world(1 << 20, 4096, 8);
    let (_, chain) = three_buffers(&mut w);
    let bm = &w.client_bm;
    let data = shared_data(chain[0]);
    assert_eq!(data.len_within(bm, &w.mem, 9000), Some(9000));
    assert_eq!(data.len_within(bm, &w.mem, 8999), None);
    assert_eq!(data.len_within(bm, &w.mem, 0), None);
    assert_eq!(shared_data(1 << 20).len_within(bm, &w.mem, 0), Some(0));
    assert_eq!(fallback_data(vec![1; 7]).len_within(bm, &w.mem, 7), Some(7));
    assert_eq!(fallback_data(vec![1; 7]).len_within(bm, &w.mem, 6), None);
    let mut far = Stream::new(1, 0);
    assert!(far.can_take_up(bm, &w.mem));
    far.fill_data_to_read_buffer(bm, &mut w.mem, data);
    far.fill_data_to_read_buffer(bm, &mut w.mem, fallback_data(vec![1; 7]));
    assert!(far.can_take_up(bm, &w.mem));
    let mut stats = Stats::default();
    far.move_pending_data(bm, &mut w.mem, &mut stats);
    assert_eq!(far.recv_buf.len(), 9007);
}
