use std::time::Duration;

use shmipc::config::{Config, Platform};
use shmipc::consts::MemMapType;
use shmipc::error::Error;
use shmipc::protocol::client::{ClientAction, ClientEvent, ClientProtocolAdapter};
use shmipc::protocol::event::{
    check_event_valid, close_event, polling_event_with_version, EventType, FallbackDataEvent,
};
use shmipc::protocol::header::Header;
use shmipc::protocol::initializer::{
    is_v4_fallback_error, write_negotiation, EventFdPair, InitCause, InitError,
    ProtocolInitialized, V4ClientInitError,
};
use shmipc::protocol::metadata::{
    extract_shm_metadata, generate_shm_metadata, has_shm_metadata,
};
use shmipc::protocol::negotiation::{
    eventfd_supported, select_feature, EventQueuePollingSettings, NegotiatedFeature,
    NegotiationError, NegotiationFailure, NegotiationRequest, NegotiationResponse,
    PollingSettings, ERROR_JSON_PARSE, ERROR_VERSION_NOT_SUPPORTED, FEATURE_EVENTFD_WAKEUP,
    FEATURE_EVENT_QUEUE_POLLING,
};
use shmipc::protocol::server::{ServerAction, ServerEvent, ServerProtocolAdapter};

#[test]
fn request_encodes_polling_settings() {
    let config = Config::default().with_v4_event_queue_polling(Duration::from_micros(250));

    let request = NegotiationRequest::from_config(&config).unwrap();

    assert_eq!(vec![FEATURE_EVENT_QUEUE_POLLING.to_owned()], request.supports_features);
    assert_eq!(
        PollingSettings::Present(EventQueuePollingSettings { polling_interval_us: 250 }),
        request.settings
    );
}

#[test]
fn request_encodes_eventfd_feature_when_supported() {
    let config = Config {
        mem_map_type: MemMapType::MemMapTypeMemFd,
        ..Config::default().with_v4_eventfd()
    };

    let result = NegotiationRequest::from_config(&config);
    if eventfd_supported() {
        assert_eq!(
            vec![FEATURE_EVENTFD_WAKEUP.to_owned()],
            result.unwrap().supports_features
        );
    } else {
        assert!(result.is_err());
    }
}

#[test]
fn select_feature_prefers_polling_over_eventfd() {
    let config = Config::default().with_v4_event_queue_polling(Duration::from_micros(100));
    let mut request = NegotiationRequest::from_config(&config).unwrap();
    request.supports_features.push(FEATURE_EVENTFD_WAKEUP.to_owned());

    assert_eq!(
        NegotiatedFeature::EventQueuePolling { interval: Duration::from_micros(100) },
        select_feature(&request)
    );
}

#[test]
fn response_decodes_selected_polling_settings() {
    let request = NegotiationRequest::from_config(
        &Config::default().with_v4_event_queue_polling(Duration::from_micros(321)),
    )
    .unwrap();
    let response = NegotiationResponse::ok(NegotiatedFeature::EventQueuePolling {
        interval: Duration::from_micros(321),
    })
    .unwrap();

    assert_eq!(
        NegotiatedFeature::EventQueuePolling { interval: Duration::from_micros(321) },
        response.selected_feature_for_request(&request).unwrap()
    );
}

#[test]
fn v4_fallback_error_requires_typed_network_or_protocol_error() {
    let network_or_protocol = V4ClientInitError::network_or_protocol(InitCause::Io(
        "EOF while reading negotiation".to_owned(),
    ));
    assert!(is_v4_fallback_error(&network_or_protocol));

    let rejected = V4ClientInitError::rejected(NegotiationError {
        code: ERROR_VERSION_NOT_SUPPORTED.to_owned(),
        message: "protocol version is not supported".to_owned(),
    });
    assert!(!is_v4_fallback_error(&rejected));

    let invalid_response =
        V4ClientInitError::invalid_response(InitCause::Json("invalid json".to_owned()));
    assert!(!is_v4_fallback_error(&invalid_response));

    let untyped = InitError::Cause(InitCause::Io(
        "v4 negotiation read protocol connection failed".to_owned(),
    ));
    assert!(!is_v4_fallback_error(&untyped));
}

#[test]
fn settings_that_make_no_sense_are_named() {
    assert_eq!(
        EventQueuePollingSettings::from_interval(Duration::from_nanos(999)),
        Err(NegotiationFailure::ZeroInterval)
    );
    assert_eq!(
        EventQueuePollingSettings::from_interval(Duration::MAX),
        Err(NegotiationFailure::IntervalTooLarge)
    );
    assert_eq!(
        EventQueuePollingSettings { polling_interval_us: 0 }.interval(),
        Err(NegotiationFailure::ZeroInterval)
    );
    let mut request = NegotiationRequest::from_config(
        &Config::default().with_v4_event_queue_polling(Duration::from_micros(9)),
    )
    .unwrap();
    let mut response = NegotiationResponse::ok(NegotiatedFeature::EventQueuePolling {
        interval: Duration::from_micros(9),
    })
    .unwrap();
    response.settings = PollingSettings::Missing;
    assert_eq!(
        response.selected_feature_for_request(&request),
        Ok(NegotiatedFeature::EventQueuePolling { interval: Duration::from_micros(9) })
    );
    request.settings = PollingSettings::Missing;
    assert_eq!(
        response.selected_feature_for_request(&request),
        Err(NegotiationFailure::MissingSettings)
    );
    response.settings = PollingSettings::Unreadable;
    assert_eq!(
        response.selected_feature_for_request(&request),
        Err(NegotiationFailure::BadSettings)
    );
    let plain = NegotiationRequest::from_config(&Config::default().with_v4()).unwrap();
    let response = NegotiationResponse::ok(NegotiatedFeature::NoFeature).unwrap();
    assert_eq!(response.selected_feature_for_request(&plain), Ok(NegotiatedFeature::NoFeature));
    let refused = NegotiationResponse::json_parse_error("no".to_owned());
    assert_eq!(refused.error.unwrap().code, ERROR_JSON_PARSE);
    let refused = NegotiationResponse::version_not_supported();
    assert_eq!(refused.error.unwrap().code, ERROR_VERSION_NOT_SUPPORTED);
}

#[test]
fn headers_say_what_was_encoded() {
    let mut h = Header::new();
    h.encode(0x01020304, 3, EventType(EventType::TYPE_POLLING));
    assert_eq!(h.as_slice(), [1, 2, 3, 4, 0x77, 0x58, 3, 1]);
    assert_eq!(h.length(), 0x01020304);
    assert_eq!(h.version(), 3);
    assert_eq!(h.body_len(), Some(0x01020304 - 8));
    assert!(check_event_valid(&h).is_ok());
    assert_eq!(
        h.describe(),
        "Header { length: 16909060, magic: 30552, version: 3, msg_type: Polling }"
    );
    h.encode(4, 0, EventType(10));
    assert!(check_event_valid(&h).is_ok());
    assert_eq!(h.body_len(), None);
    h.encode(8, 0, EventType(11));
    assert!(matches!(check_event_valid(&h), Err(Error::InvalidMsgType)));
    assert!(matches!(check_event_valid(&Header::new()), Err(Error::InvalidVersion)));
    assert_eq!(EventType::from(200).name(), "UNSET200");
}

#[test]
fn events_have_their_bytes() {
    assert_eq!(polling_event_with_version(2), [0, 0, 0, 8, 0x77, 0x58, 2, 1]);
    assert_eq!(close_event(3, 258), [0, 0, 0, 12, 0x77, 0x58, 3, 2, 0, 0, 1, 2]);
    let mut f = FallbackDataEvent::new();
    f.encode(17, 0, 5, 1);
    assert_eq!(
        f.as_slice(),
        [0, 0, 0, 17, 0x77, 0x58, 0, 3, 0, 0, 0, 5, 0, 0, 0, 1]
    );
}

#[test]
fn metadata_is_read_back() {
    let msg = generate_shm_metadata(
        EventType(EventType::TYPE_SHARE_MEMORY_BY_FILE_PATH),
        "/dev/shm/b",
        "/dev/shm/queue",
        2,
    );
    assert!(has_shm_metadata(&msg[8..]));
    let (buffer, queue) = extract_shm_metadata(&msg[8..]);
    assert_eq!(buffer, b"/dev/shm/b");
    assert_eq!(queue, b"/dev/shm/queue");
    assert!(!has_shm_metadata(&msg[8..msg.len() - 1]));
}

enum Msg {
    Bytes(Vec<u8>),
    Fds(Vec<i32>),
}

struct Pipe {
    to_server: Vec<Msg>,
    to_client: Vec<Msg>,
    response: Option<NegotiationResponse>,
}

fn take_bytes(inbox: &mut Vec<Msg>, n: usize) -> Option<Vec<u8>> {
    match inbox.first_mut() {
        Some(Msg::Bytes(b)) => {
            let head: Vec<u8> = b.drain(..n).collect();
            if b.is_empty() {
                inbox.remove(0);
            }
            Some(head)
        }
        _ => None,
    }
}

fn take_header(inbox: &mut Vec<Msg>) -> Option<Header> {
    take_bytes(inbox, 8).map(|b| Header::read(&b, 0))
}

fn request_of(config: &Config) -> NegotiationRequest {
    NegotiationRequest::from_config(config).unwrap()
}

/// Lets a client and a server talk until both are done.
fn converse(config: Config) -> (ProtocolInitialized, ProtocolInitialized, Vec<u8>, Vec<u8>) {
    let platform = Platform::linux_amd64();
    let mut client = ClientProtocolAdapter::new(
        config.clone(),
        platform,
        "/dev/shm/b".to_owned(),
        "/dev/shm/q".to_owned(),
        11,
        12,
    );
    let mut server = ServerProtocolAdapter::new(platform);
    let mut pipe = Pipe { to_server: Vec::new(), to_client: Vec::new(), response: None };
    let mut c = client.step(ClientEvent::Begin);
    let mut s = server.step(ServerEvent::Begin);
    let mut client_done = None;
    let mut server_done = None;
    while client_done.is_none() || server_done.is_none() {
        let event = match &c {
            ClientAction::Send(b) => {
                pipe.to_server.push(Msg::Bytes(b.clone()));
                Some(ClientEvent::Sent)
            }
            ClientAction::SendRequest => {
                assert!(client.request().is_some());
                pipe.to_server.push(Msg::Bytes(write_negotiation(b"{request}")));
                Some(ClientEvent::Sent)
            }
            ClientAction::ReadHeader => take_header(&mut pipe.to_client).map(ClientEvent::Header),
            ClientAction::ReadResponse(n) => take_bytes(&mut pipe.to_client, *n as usize)
                .map(|_| ClientEvent::Response(pipe.response.take().unwrap())),
            ClientAction::CreateEventFds => {
                Some(ClientEvent::EventFds(EventFdPair { wakeup_send: 13, wakeup_recv: 14 }))
            }
            ClientAction::SendFds(fds) => {
                pipe.to_server.push(Msg::Fds(fds.clone()));
                Some(ClientEvent::Sent)
            }
            ClientAction::Done(i) => {
                client_done = Some(*i);
                None
            }
            ClientAction::Fail(e) => panic!("{:?}", e),
        };
        if let Some(event) = event {
            assert!(client.expects(&event));
            c = client.step(event);
        }
        let event = match &s {
            ServerAction::ReadHeader => take_header(&mut pipe.to_server).map(ServerEvent::Header),
            ServerAction::ReadBody(n) => {
                take_bytes(&mut pipe.to_server, *n as usize).map(ServerEvent::Body)
            }
            ServerAction::ReadRequest(n) => take_bytes(&mut pipe.to_server, *n as usize)
                .map(|_| ServerEvent::Request(request_of(&config))),
            ServerAction::Send(b) => {
                pipe.to_client.push(Msg::Bytes(b.clone()));
                Some(ServerEvent::Sent)
            }
            ServerAction::SendResponse(_) => {
                pipe.to_client.push(Msg::Bytes(write_negotiation(b"{response}")));
                Some(ServerEvent::Sent)
            }
            ServerAction::RecvFds(n) => match pipe.to_server.first() {
                Some(Msg::Fds(f)) => {
                    assert_eq!(f.len(), *n);
                    let fds = f.clone();
                    pipe.to_server.remove(0);
                    Some(ServerEvent::Fds(fds))
                }
                _ => None,
            },
            ServerAction::MapFiles { .. } => Some(ServerEvent::Mapped),
            ServerAction::MapFds { buffer_fd, queue_fd, .. } => {
                assert_eq!((*buffer_fd, *queue_fd), (11, 12));
                Some(ServerEvent::Mapped)
            }
            ServerAction::Done(i) => {
                server_done = Some(*i);
                None
            }
            ServerAction::Fail(e) => panic!("{:?}", e),
        };
        if let Some(event) = event {
            assert!(server.expects(&event));
            let next = server.step(event);
            let last = std::mem::replace(&mut s, next);
            if let ServerAction::SendResponse(r) = last {
                pipe.response = Some(r);
            }
        }
    }
    let (b, q) = (server.buffer_path().clone(), server.queue_path().clone());
    (client_done.unwrap(), server_done.unwrap(), b, q)
}

#[test]
fn peers_agree_on_files() {
    let (c, s, b, q) = converse(Config::default());
    assert_eq!(c, ProtocolInitialized::legacy(2));
    assert_eq!(s, c);
    assert_eq!(b, b"/dev/shm/b");
    assert_eq!(q, b"/dev/shm/q");
}

#[test]
fn peers_agree_on_memfd() {
    let mut config = Config::default();
    config.mem_map_type = MemMapType::MemMapTypeMemFd;
    let (c, s, b, q) = converse(config);
    assert_eq!(c, ProtocolInitialized::legacy(3));
    assert_eq!(s, c);
    assert_eq!(b, b"/dev/shm/b");
    assert_eq!(q, b"/dev/shm/q");
}

#[test]
fn peers_agree_on_v4_polling() {
    let config = Config::default().with_v4_event_queue_polling(Duration::from_micros(100));
    let (c, s, _, _) = converse(config);
    assert_eq!(c.proto_version, 4);
    assert_eq!(c.msg_version, 0);
    assert_eq!(
        c.feature,
        NegotiatedFeature::EventQueuePolling { interval: Duration::from_micros(100) }
    );
    assert_eq!(s, c);
}

#[test]
fn peers_agree_on_v4_eventfd() {
    let mut config = Config::default().with_v4_eventfd();
    config.mem_map_type = MemMapType::MemMapTypeMemFd;
    let (c, s, _, _) = converse(config);
    assert_eq!(c.feature, NegotiatedFeature::EventFd);
    assert_eq!(s.feature, NegotiatedFeature::EventFd);
    assert!(c.eventfd.is_some());
    assert!(s.eventfd.is_some());
}

#[test]
fn a_client_that_gets_no_answer_may_fall_back() {
    let mut client = ClientProtocolAdapter::new(
        Config::default().with_v4(),
        Platform::linux_amd64(),
        "b".to_owned(),
        "q".to_owned(),
        0,
        0,
    );
    assert!(matches!(client.step(ClientEvent::Begin), ClientAction::SendRequest));
    assert!(matches!(client.step(ClientEvent::Sent), ClientAction::ReadHeader));
    match client.step(ClientEvent::Failed("EOF".to_owned())) {
        ClientAction::Fail(e) => assert!(is_v4_fallback_error(&e)),
        _ => panic!(),
    }
}

#[test]
fn a_server_refuses_a_request_that_is_no_json() {
    let mut server = ServerProtocolAdapter::new(Platform::linux_amd64());
    assert!(matches!(server.step(ServerEvent::Begin), ServerAction::ReadHeader));
    let msg = write_negotiation(b"{");
    let h = Header::read(&msg, 0);
    assert!(matches!(server.step(ServerEvent::Header(h)), ServerAction::ReadRequest(1)));
    match server.step(ServerEvent::BadJson("unexpected end".to_owned())) {
        ServerAction::SendResponse(r) => assert_eq!(r.error.unwrap().code, ERROR_JSON_PARSE),
        _ => panic!(),
    }
    assert!(matches!(server.step(ServerEvent::Sent), ServerAction::Fail(_)));
}

#[test]
fn an_interval_is_carried_in_whole_microseconds() {
    let config = Config::default().with_v4_event_queue_polling(Duration::from_nanos(321_999));
    let request = NegotiationRequest::from_config(&config).unwrap();
    assert_eq!(
        select_feature(&request),
        NegotiatedFeature::EventQueuePolling { interval: Duration::from_nanos(321_000) },
    );
    for nanos in [321_000u64, 321_999] {
        let feature =
            NegotiatedFeature::EventQueuePolling { interval: Duration::from_nanos(nanos) };
        let response = NegotiationResponse::ok(feature).unwrap();
        assert_eq!(
            response.selected_feature_for_request(&request),
            Ok(NegotiatedFeature::EventQueuePolling { interval: Duration::from_nanos(321_000) }),
        );
    }
}
