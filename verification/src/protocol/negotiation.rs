//! The V4 negotiation: what the client asks for and what the server answers.

use std::time::Duration;

use vstd::prelude::*;
use vstd::string::StringExecFns;

use crate::config::{Config, Platform, WakeupMode};
use crate::outside;

verus! {

pub const PROTO_VERSION_V4: u8 = 4;

/// The version in the header of every V4 message.
pub const MSG_VERSION_V4: u8 = 0;

pub const SDK_NAME: &'static str = "shmipc-rs";

pub const SDK_VERSION: &'static str = "0.1.0";

pub const FEATURE_EVENT_QUEUE_POLLING: &'static str = "event_queue_polling";

pub const FEATURE_EVENTFD_WAKEUP: &'static str = "eventfd_wakeup";

pub const ERROR_VERSION_NOT_SUPPORTED: &'static str = "VERSION_NOT_SUPPORTED";

pub const ERROR_JSON_PARSE: &'static str = "JSON_PARSE_ERROR";

/// What goes wrong with the settings of a feature.
#[derive(Clone, Copy, Debug, PartialEq, Eq, Structural)]
pub enum NegotiationFailure {
    /// The polling interval does not fit the field for its microseconds.
    IntervalTooLarge,
    /// The polling interval must be at least one microsecond.
    ZeroInterval,
    /// The eventfd wakeup is only there on Linux.
    EventFdNotSupported,
    /// Polling was selected without settings.
    MissingSettings,
    /// The settings of polling could not be read.
    BadSettings,
}

/// The settings of the polling feature.
#[derive(Clone, Copy, Debug, PartialEq, Eq, Structural)]
pub struct EventQueuePollingSettings {
    pub polling_interval_us: u64,
}

impl EventQueuePollingSettings {
    /// The settings of an interval, or why there are none.
    pub open spec fn of_interval(interval: Duration) -> Result<Self, NegotiationFailure> {
        let us = outside::duration_nanos(interval) / 1000;
        if us > u64::MAX {
            Err(NegotiationFailure::IntervalTooLarge)
        } else if us == 0 {
            Err(NegotiationFailure::ZeroInterval)
        } else {
            Ok(EventQueuePollingSettings { polling_interval_us: us as u64 })
        }
    }

    /// The settings of an interval: its whole microseconds.
    pub fn from_interval(interval: Duration) -> (r: Result<Self, NegotiationFailure>)
        ensures
            r == Self::of_interval(interval),
    {
        let us: u128 = interval.as_micros();
        if us > u64::MAX as u128 {
            return Err(NegotiationFailure::IntervalTooLarge);
        }
        if us == 0 {
            return Err(NegotiationFailure::ZeroInterval);
        }
        Ok(EventQueuePollingSettings { polling_interval_us: us as u64 })
    }

    /// The interval of the settings.
    pub fn interval(&self) -> (r: Result<Duration, NegotiationFailure>)
        ensures
            match r {
                Ok(d) => self.polling_interval_us > 0 && outside::duration_nanos(d)
                    == self.polling_interval_us * 1000,
                Err(e) => self.polling_interval_us == 0 && e == NegotiationFailure::ZeroInterval,
            },
    {
        if self.polling_interval_us == 0 {
            return Err(NegotiationFailure::ZeroInterval);
        }
        Ok(Duration::from_micros(self.polling_interval_us))
    }
}

/// What a message says under the name of the polling feature in its settings.
#[derive(Clone, Copy, Debug, PartialEq, Eq, Structural)]
pub enum PollingSettings {
    /// Nothing.
    Missing,
    /// Something that is not the settings of polling.
    Unreadable,
    /// Settings.
    Present(EventQueuePollingSettings),
}

/// The wakeup feature that both sides use.
#[derive(Clone, Copy, Debug, PartialEq, Eq)]
pub enum NegotiatedFeature {
    NoFeature,
    EventQueuePolling { interval: Duration },
    EventFd,
}

/// A feature as the two sides compare it: its interval in nanoseconds.
pub enum FeatureView {
    NoFeature,
    EventQueuePolling { nanos: nat },
    EventFd,
}

impl NegotiatedFeature {
    /// The feature, with its interval as a number.
    pub open spec fn view(&self) -> FeatureView {
        match self {
            NegotiatedFeature::NoFeature => FeatureView::NoFeature,
            NegotiatedFeature::EventQueuePolling { interval } => FeatureView::EventQueuePolling {
                nanos: outside::duration_nanos(*interval),
            },
            NegotiatedFeature::EventFd => FeatureView::EventFd,
        }
    }

    /// The interval can be carried by the settings.
    pub open spec fn encodable(self) -> bool {
        self is EventQueuePolling ==> EventQueuePollingSettings::of_interval(
            self->interval,
        ) is Ok
    }
}

impl Default for NegotiatedFeature {
    fn default() -> (r: Self)
        ensures
            r == NegotiatedFeature::NoFeature,
    {
        NegotiatedFeature::NoFeature
    }
}

/// Whether eventfds are there on a machine.
pub fn eventfd_supported_on(platform: Platform) -> (r: bool)
    ensures
        r == platform.linux,
{
    platform.linux
}

/// Whether eventfds are there on Linux.
pub fn eventfd_supported() -> (r: bool)
    ensures
        r,
{
    eventfd_supported_on(Platform::linux_amd64())
}

/// The list of names holds the name.
pub open spec fn names(features: Seq<String>, name: Seq<char>) -> bool {
    exists|i: int| 0 <= i < features.len() && (#[trigger] features[i])@ == name
}

/// Whether the list of names holds the name.
pub fn has_name(features: &Vec<String>, name: &str) -> (r: bool)
    ensures
        r == names(features@, name@),
{
    let wanted: String = name.to_owned();
    let mut i: usize = 0;
    while i < features.len()
        invariant
            i <= features@.len(),
            wanted@ == name@,
            forall|j: int| 0 <= j < i ==> (#[trigger] features@[j])@ != name@,
        decreases features@.len() - i,
    {
        if features[i] == wanted {
            return true;
        }
        i = i + 1;
    }
    false
}

/// The client's request.
#[derive(Debug)]
pub struct NegotiationRequest {
    pub supports_protocols: Vec<u8>,
    pub sdk_name: String,
    pub sdk_version: String,
    pub supports_features: Vec<String>,
    /// The settings under the name of the polling feature.
    pub settings: PollingSettings,
}

impl NegotiationRequest {
    /// The request asks for V4 under this library's name, and for the feature alone.
    pub open spec fn asks_for(self, feature: Option<Seq<char>>, settings: PollingSettings) -> bool {
        &&& self.supports_protocols@ == seq![PROTO_VERSION_V4]
        &&& self.sdk_name@ == SDK_NAME@
        &&& self.sdk_version@ == SDK_VERSION@
        &&& match feature {
            None => self.supports_features@.len() == 0,
            Some(name) => self.supports_features@.len() == 1 && self.supports_features@[0]@
                == name,
        }
        &&& self.settings == settings
    }

    /// Why there is no request for a wakeup mode.
    pub open spec fn refusal(wakeup: WakeupMode, platform: Platform) -> Option<NegotiationFailure> {
        match wakeup {
            WakeupMode::Default => None,
            WakeupMode::EventQueuePolling { interval } => match
                EventQueuePollingSettings::of_interval(interval) {
                Ok(_) => None,
                Err(e) => Some(e),
            },
            WakeupMode::EventFd => if platform.linux {
                None
            } else {
                Some(NegotiationFailure::EventFdNotSupported)
            },
        }
    }

    /// What [`NegotiationRequest::from_config_on`] gives for a wakeup mode.
    pub open spec fn is_for(
        r: Result<Self, NegotiationFailure>,
        wakeup: WakeupMode,
        platform: Platform,
    ) -> bool {
        match Self::refusal(wakeup, platform) {
            Some(e) => r == Err::<Self, NegotiationFailure>(e),
            None => {
                &&& r matches Ok(q)
                &&& match wakeup {
                    WakeupMode::Default => q.asks_for(None, PollingSettings::Missing),
                    WakeupMode::EventQueuePolling { interval } => q.asks_for(
                        Some(FEATURE_EVENT_QUEUE_POLLING@),
                        PollingSettings::Present(
                            EventQueuePollingSettings::of_interval(interval)->Ok_0,
                        ),
                    ),
                    WakeupMode::EventFd => q.asks_for(
                        Some(FEATURE_EVENTFD_WAKEUP@),
                        PollingSettings::Missing,
                    ),
                }
            },
        }
    }

    /// The request for the wakeup feature of a configuration.
    pub fn from_config_on(config: &Config, platform: Platform) -> (r: Result<
        Self,
        NegotiationFailure,
    >)
        ensures
            Self::is_for(r, config.protocol.wakeup, platform),
    {
        let mut supports_features: Vec<String> = Vec::new();
        let mut settings = PollingSettings::Missing;
        match config.protocol.wakeup {
            WakeupMode::Default => {},
            WakeupMode::EventQueuePolling { interval } => {
                supports_features.push(FEATURE_EVENT_QUEUE_POLLING.to_owned());
                match EventQueuePollingSettings::from_interval(interval) {
                    Ok(s) => {
                        settings = PollingSettings::Present(s);
                    },
                    Err(e) => {
                        return Err(e);
                    },
                }
            },
            WakeupMode::EventFd => {
                if !eventfd_supported_on(platform) {
                    return Err(NegotiationFailure::EventFdNotSupported);
                }
                supports_features.push(FEATURE_EVENTFD_WAKEUP.to_owned());
            },
        }
        let mut supports_protocols: Vec<u8> = Vec::new();
        supports_protocols.push(PROTO_VERSION_V4);
        assert(supports_protocols@ =~= seq![PROTO_VERSION_V4]);
        Ok(
            NegotiationRequest {
                supports_protocols,
                sdk_name: SDK_NAME.to_owned(),
                sdk_version: SDK_VERSION.to_owned(),
                supports_features,
                settings,
            },
        )
    }

    /// The request for the wakeup feature of a configuration, on Linux.
    pub fn from_config(config: &Config) -> (r: Result<Self, NegotiationFailure>)
        ensures
            Self::is_for(r, config.protocol.wakeup, Platform::linux_amd64()),
    {
        Self::from_config_on(config, Platform::linux_amd64())
    }

    /// The client takes V4.
    pub open spec fn takes_v4(self) -> bool {
        self.supports_protocols@.contains(PROTO_VERSION_V4)
    }

    /// Whether the client takes V4.
    pub fn supports_v4(&self) -> (r: bool)
        ensures
            r == self.takes_v4(),
    {
        let mut i: usize = 0;
        while i < self.supports_protocols.len()
            invariant
                i <= self.supports_protocols@.len(),
                forall|j: int| 0 <= j < i ==> self.supports_protocols@[j] != PROTO_VERSION_V4,
            decreases self.supports_protocols@.len() - i,
        {
            if self.supports_protocols[i] == PROTO_VERSION_V4 {
                assert(self.supports_protocols@[i as int] == PROTO_VERSION_V4);
                return true;
            }
            i = i + 1;
        }
        false
    }

    /// The feature that a server on a machine selects.
    pub open spec fn selection(self, platform: Platform) -> FeatureView {
        if names(self.supports_features@, FEATURE_EVENT_QUEUE_POLLING@)
            && self.settings is Present && self.settings->Present_0.polling_interval_us > 0 {
            FeatureView::EventQueuePolling {
                nanos: self.settings->Present_0.polling_interval_us as nat * 1000,
            }
        } else if names(self.supports_features@, FEATURE_EVENTFD_WAKEUP@) && platform.linux {
            FeatureView::EventFd
        } else {
            FeatureView::NoFeature
        }
    }
}

/// Selects the feature that a server uses: polling before eventfd before none.
pub fn select_feature_on(request: &NegotiationRequest, platform: Platform) -> (r: NegotiatedFeature)
    ensures
        r.view() == request.selection(platform),
        r.encodable(),
{
    if has_name(&request.supports_features, FEATURE_EVENT_QUEUE_POLLING) {
        if let PollingSettings::Present(setting) = request.settings {
            if let Ok(interval) = setting.interval() {
                return NegotiatedFeature::EventQueuePolling { interval };
            }
        }
    }
    if has_name(&request.supports_features, FEATURE_EVENTFD_WAKEUP) && eventfd_supported_on(
        platform,
    ) {
        return NegotiatedFeature::EventFd;
    }
    NegotiatedFeature::NoFeature
}

/// Selects the feature that a server on Linux uses.
pub fn select_feature(request: &NegotiationRequest) -> (r: NegotiatedFeature)
    ensures
        r.view() == request.selection(Platform::linux_amd64()),
        r.encodable(),
{
    select_feature_on(request, Platform::linux_amd64())
}

/// Why a server refuses.
#[derive(Debug)]
pub struct NegotiationError {
    pub code: String,
    pub message: String,
}

impl NegotiationError {
    /// The refusal in words.
    pub fn describe(&self) -> (r: String)
        ensures
            r@ == self.code@ + ": "@ + self.message@,
    {
        let mut s: String = self.code.clone();
        s.append(": ");
        s.append(self.message.as_str());
        s
    }
}

/// The server's answer.
#[derive(Debug)]
pub struct NegotiationResponse {
    pub selected_protocol: u8,
    pub sdk_name: String,
    pub sdk_version: String,
    pub selected_features: Vec<String>,
    /// The settings under the name of the polling feature.
    pub settings: PollingSettings,
    pub error: Option<NegotiationError>,
}

impl NegotiationResponse {
    /// The answer agrees to V4 with a feature.
    pub open spec fn agrees(self, feature: NegotiatedFeature) -> bool {
        &&& self.selected_protocol == PROTO_VERSION_V4
        &&& self.sdk_name@ == SDK_NAME@
        &&& self.sdk_version@ == SDK_VERSION@
        &&& self.error is None
        &&& match feature {
            NegotiatedFeature::NoFeature => {
                &&& self.selected_features@.len() == 0
                &&& self.settings == PollingSettings::Missing
            },
            NegotiatedFeature::EventQueuePolling { interval } => {
                &&& self.selected_features@.len() == 1
                &&& self.selected_features@[0]@ == FEATURE_EVENT_QUEUE_POLLING@
                &&& EventQueuePollingSettings::of_interval(interval) is Ok
                &&& self.settings == PollingSettings::Present(
                    EventQueuePollingSettings::of_interval(interval)->Ok_0,
                )
            },
            NegotiatedFeature::EventFd => {
                &&& self.selected_features@.len() == 1
                &&& self.selected_features@[0]@ == FEATURE_EVENTFD_WAKEUP@
                &&& self.settings == PollingSettings::Missing
            },
        }
    }

    /// The answer refuses.
    pub open spec fn refuses(self, code: Seq<char>, message: Seq<char>) -> bool {
        &&& self.selected_protocol == 0
        &&& self.sdk_name@ == SDK_NAME@
        &&& self.sdk_version@ == SDK_VERSION@
        &&& self.selected_features@.len() == 0
        &&& self.settings == PollingSettings::Missing
        &&& self.error matches Some(e)
        &&& e.code@ == code
        &&& e.message@ == message
    }

    /// The answer that agrees to V4 with a feature.
    pub fn ok(selected_feature: NegotiatedFeature) -> (r: Result<Self, NegotiationFailure>)
        ensures
            match r {
                Ok(a) => selected_feature.encodable() && a.agrees(selected_feature),
                Err(e) => selected_feature is EventQueuePolling
                    && EventQueuePollingSettings::of_interval(selected_feature->interval) == Err::<
                    EventQueuePollingSettings,
                    NegotiationFailure,
                >(e),
            },
    {
        let mut selected_features: Vec<String> = Vec::new();
        let mut settings = PollingSettings::Missing;
        match selected_feature {
            NegotiatedFeature::NoFeature => {},
            NegotiatedFeature::EventQueuePolling { interval } => {
                selected_features.push(FEATURE_EVENT_QUEUE_POLLING.to_owned());
                match EventQueuePollingSettings::from_interval(interval) {
                    Ok(s) => {
                        settings = PollingSettings::Present(s);
                    },
                    Err(e) => {
                        return Err(e);
                    },
                }
            },
            NegotiatedFeature::EventFd => {
                selected_features.push(FEATURE_EVENTFD_WAKEUP.to_owned());
            },
        }
        Ok(
            NegotiationResponse {
                selected_protocol: PROTO_VERSION_V4,
                sdk_name: SDK_NAME.to_owned(),
                sdk_version: SDK_VERSION.to_owned(),
                selected_features,
                settings,
                error: None,
            },
        )
    }

    /// The answer to a client that does not take V4.
    pub fn version_not_supported() -> (r: Self)
        ensures
            r.refuses(ERROR_VERSION_NOT_SUPPORTED@, "protocol version is not supported"@),
    {
        Self::error(
            ERROR_VERSION_NOT_SUPPORTED.to_owned(),
            "protocol version is not supported".to_owned(),
        )
    }

    /// The answer to a request that is no JSON.
    pub fn json_parse_error(message: String) -> (r: Self)
        ensures
            r.refuses(ERROR_JSON_PARSE@, message@),
    {
        Self::error(ERROR_JSON_PARSE.to_owned(), message)
    }

    /// An answer that refuses.
    pub fn error(code: String, message: String) -> (r: Self)
        ensures
            r.refuses(code@, message@),
    {
        NegotiationResponse {
            selected_protocol: 0,
            sdk_name: SDK_NAME.to_owned(),
            sdk_version: SDK_VERSION.to_owned(),
            selected_features: Vec::new(),
            settings: PollingSettings::Missing,
            error: Some(NegotiationError { code, message }),
        }
    }

    /// The polling settings that hold for the client: those of the answer, else its own.
    pub open spec fn settings_for(self, request: NegotiationRequest) -> PollingSettings {
        if self.settings is Missing {
            request.settings
        } else {
            self.settings
        }
    }

    /// The feature that the answer selects.
    pub open spec fn selected(self, request: NegotiationRequest) -> Result<
        FeatureView,
        NegotiationFailure,
    > {
        if names(self.selected_features@, FEATURE_EVENT_QUEUE_POLLING@) {
            match self.settings_for(request) {
                PollingSettings::Missing => Err(NegotiationFailure::MissingSettings),
                PollingSettings::Unreadable => Err(NegotiationFailure::BadSettings),
                PollingSettings::Present(s) => if s.polling_interval_us == 0 {
                    Err(NegotiationFailure::ZeroInterval)
                } else {
                    Ok(
                        FeatureView::EventQueuePolling {
                            nanos: s.polling_interval_us as nat * 1000,
                        },
                    )
                },
            }
        } else if names(self.selected_features@, FEATURE_EVENTFD_WAKEUP@) {
            Ok(FeatureView::EventFd)
        } else {
            Ok(FeatureView::NoFeature)
        }
    }

    /// The feature that the answer selects for the request.
    pub fn selected_feature_for_request(&self, request: &NegotiationRequest) -> (r: Result<
        NegotiatedFeature,
        NegotiationFailure,
    >)
        ensures
            match r {
                Ok(f) => self.selected(*request) == Ok::<FeatureView, NegotiationFailure>(f.view())
                    && f.encodable(),
                Err(e) => self.selected(*request) == Err::<FeatureView, NegotiationFailure>(e),
            },
    {
        if has_name(&self.selected_features, FEATURE_EVENT_QUEUE_POLLING) {
            let settings = match self.settings {
                PollingSettings::Missing => request.settings,
                s => s,
            };
            return match settings {
                PollingSettings::Missing => Err(NegotiationFailure::MissingSettings),
                PollingSettings::Unreadable => Err(NegotiationFailure::BadSettings),
                PollingSettings::Present(s) => match s.interval() {
                    Ok(interval) => Ok(NegotiatedFeature::EventQueuePolling { interval }),
                    Err(e) => Err(e),
                },
            };
        }
        if has_name(&self.selected_features, FEATURE_EVENTFD_WAKEUP) {
            return Ok(NegotiatedFeature::EventFd);
        }
        Ok(NegotiatedFeature::NoFeature)
    }
}

proof fn lemma_feature_names_differ()
    ensures
        FEATURE_EVENT_QUEUE_POLLING@ != FEATURE_EVENTFD_WAKEUP@,
{
    reveal_strlit("event_queue_polling");
    reveal_strlit("eventfd_wakeup");
    assert(FEATURE_EVENT_QUEUE_POLLING@.len() == 19);
    assert(FEATURE_EVENTFD_WAKEUP@.len() == 14);
}

/// An answer that agrees to a feature selects that feature, whatever the request: of an interval
/// the whole microseconds, which is all of it where it has no others.
pub proof fn law_answer_carries_the_feature(
    request: NegotiationRequest,
    feature: NegotiatedFeature,
    response: NegotiationResponse,
)
    requires
        response.agrees(feature),
    ensures
        response.selected(request) == Ok::<FeatureView, NegotiationFailure>(
            match feature {
                NegotiatedFeature::EventQueuePolling { interval } => {
                    FeatureView::EventQueuePolling {
                        nanos: outside::duration_nanos(interval) / 1000 * 1000,
                    }
                },
                _ => feature.view(),
            },
        ),
        feature is EventQueuePolling && outside::duration_nanos(feature->interval) % 1000 == 0
            ==> response.selected(request) == Ok::<FeatureView, NegotiationFailure>(feature.view()),
{
    lemma_feature_names_differ();
    match feature {
        NegotiatedFeature::NoFeature => {},
        NegotiatedFeature::EventQueuePolling { interval } => {
            assert(response.selected_features@[0]@ == FEATURE_EVENT_QUEUE_POLLING@);
        },
        NegotiatedFeature::EventFd => {
            assert(response.selected_features@[0]@ == FEATURE_EVENTFD_WAKEUP@);
        },
    }
}

/// Both sides end up with one feature: the client reads from the server's answer the feature that
/// the server selected from the client's request.
pub proof fn law_both_sides_use_one_feature(
    request: NegotiationRequest,
    feature: NegotiatedFeature,
    response: NegotiationResponse,
    platform: Platform,
)
    requires
        feature.view() == request.selection(platform),
        response.agrees(feature),
    ensures
        response.selected(request) == Ok::<FeatureView, NegotiationFailure>(
            request.selection(platform),
        ),
{
    law_answer_carries_the_feature(request, feature, response);
}

/// A server selects the wakeup mode that the client's configuration asks for, as far as its own
/// machine has it. Of the interval it selects the whole microseconds.
pub proof fn law_server_selects_what_was_asked(
    request: NegotiationRequest,
    wakeup: WakeupMode,
    client: Platform,
    server: Platform,
)
    requires
        NegotiationRequest::is_for(Ok(request), wakeup, client),
    ensures
        request.takes_v4(),
        match wakeup {
            WakeupMode::Default => request.selection(server) == FeatureView::NoFeature,
            WakeupMode::EventQueuePolling { interval } => request.selection(server)
                == (FeatureView::EventQueuePolling {
                nanos: outside::duration_nanos(interval) / 1000 * 1000,
            }),
            WakeupMode::EventFd => request.selection(server) == if server.linux {
                FeatureView::EventFd
            } else {
                FeatureView::NoFeature
            },
        },
{
    lemma_feature_names_differ();
    assert(request.supports_protocols@[0] == PROTO_VERSION_V4);
    match wakeup {
        WakeupMode::Default => {},
        WakeupMode::EventQueuePolling { interval } => {
            assert(request.supports_features@[0]@ == FEATURE_EVENT_QUEUE_POLLING@);
        },
        WakeupMode::EventFd => {
            assert(request.supports_features@[0]@ == FEATURE_EVENTFD_WAKEUP@);
        },
    }
}

/// What a client's configuration asks for is what both sides use in the end, as far as the machines
/// have it: nothing where nothing was asked for, polling with the whole microseconds of the
/// interval, or an eventfd where both run on Linux.
pub proof fn law_configured_wakeup_is_agreed(
    config: Config,
    client: Platform,
    server: Platform,
    request: Result<NegotiationRequest, NegotiationFailure>,
    taken: bool,
    feature: NegotiatedFeature,
    response: Result<NegotiationResponse, NegotiationFailure>,
    read: Result<NegotiatedFeature, NegotiationFailure>,
)
    requires
        call_ensures(NegotiationRequest::from_config_on, (&config, client), request),
        request is Ok,
        call_ensures(NegotiationRequest::supports_v4, (&request->Ok_0,), taken),
        call_ensures(select_feature_on, (&request->Ok_0, server), feature),
        call_ensures(NegotiationResponse::ok, (feature,), response),
        call_ensures(
            NegotiationResponse::selected_feature_for_request,
            (&response->Ok_0, &request->Ok_0),
            read,
        ),
    ensures
        taken,
        response is Ok,
        response->Ok_0.selected_protocol == 4,
        response->Ok_0.error is None,
        read is Ok,
        match config.protocol.wakeup {
            WakeupMode::Default => feature is NoFeature && read->Ok_0 is NoFeature,
            WakeupMode::EventQueuePolling { interval } => {
                &&& feature is EventQueuePolling
                &&& read->Ok_0 is EventQueuePolling
                &&& outside::duration_nanos(feature->interval) == outside::duration_nanos(interval)
                    / 1000 * 1000
                &&& outside::duration_nanos(read->Ok_0->interval) == outside::duration_nanos(
                    feature->interval,
                )
            },
            WakeupMode::EventFd => {
                &&& feature is EventFd <==> server.linux
                &&& !server.linux ==> feature is NoFeature
                &&& read->Ok_0 is EventFd <==> feature is EventFd
                &&& read->Ok_0 is NoFeature <==> feature is NoFeature
            },
        },
{
    law_server_selects_what_was_asked(request->Ok_0, config.protocol.wakeup, client, server);
    law_both_sides_use_one_feature(request->Ok_0, feature, response->Ok_0, server);
}

/// A client asks for what it is configured for, unless its machine has no eventfd or the interval
/// of its polling cannot be told.
pub proof fn law_request_is_made_where_it_can(
    config: Config,
    platform: Platform,
    r: Result<NegotiationRequest, NegotiationFailure>,
)
    requires
        call_ensures(NegotiationRequest::from_config_on, (&config, platform), r),
    ensures
        config.protocol.wakeup is Default ==> r is Ok && r->Ok_0.supports_features@.len() == 0,
        config.protocol.wakeup is EventFd ==> (r is Ok <==> platform.linux),
        config.protocol.wakeup is EventQueuePolling ==> ({
            let us = outside::duration_nanos(config.protocol.wakeup->interval) / 1000;
            &&& r is Ok <==> 0 < us <= u64::MAX
            &&& r is Ok ==> r->Ok_0.settings is Present
                && r->Ok_0.settings->Present_0.polling_interval_us == us
        }),
        r is Ok ==> r->Ok_0.supports_protocols@ == seq![4u8],
{
}

/// A server takes polling where the client names it with an interval, an eventfd where the client
/// names that and the server is on Linux, polling before the eventfd, and nothing otherwise.
pub proof fn law_polling_comes_first(
    request: NegotiationRequest,
    platform: Platform,
    i: int,
    j: int,
    r: NegotiatedFeature,
)
    requires
        call_ensures(select_feature_on, (&request, platform), r),
    ensures
        0 <= i < request.supports_features@.len() && request.supports_features@[i]@
            == "event_queue_polling"@ && request.settings is Present
            && request.settings->Present_0.polling_interval_us > 0 ==> r is EventQueuePolling
            && outside::duration_nanos(r->interval)
            == request.settings->Present_0.polling_interval_us * 1000,
        !(request.settings is Present) && 0 <= j < request.supports_features@.len()
            && request.supports_features@[j]@ == "eventfd_wakeup"@ ==> (r is EventFd
            <==> platform.linux),
        request.supports_features@.len() == 0 ==> r is NoFeature,
        r is EventFd ==> platform.linux,
{
}

/// A client takes from an answer the feature that it names, and polling only with an interval: that
/// of the answer, or its own where the answer has none.
pub proof fn law_answer_is_taken_as_it_is(
    response: NegotiationResponse,
    request: NegotiationRequest,
    i: int,
    r: Result<NegotiatedFeature, NegotiationFailure>,
)
    requires
        call_ensures(
            NegotiationResponse::selected_feature_for_request,
            (&response, &request),
            r,
        ),
    ensures
        ({
            let s = if response.settings is Missing {
                request.settings
            } else {
                response.settings
            };
            0 <= i < response.selected_features@.len() && response.selected_features@[i]@
                == "event_queue_polling"@ ==> {
                &&& s is Missing ==> r == Err::<NegotiatedFeature, NegotiationFailure>(
                    NegotiationFailure::MissingSettings,
                )
                &&& s is Unreadable ==> r == Err::<NegotiatedFeature, NegotiationFailure>(
                    NegotiationFailure::BadSettings,
                )
                &&& s is Present && s->Present_0.polling_interval_us == 0 ==> r == Err::<
                    NegotiatedFeature,
                    NegotiationFailure,
                >(NegotiationFailure::ZeroInterval)
                &&& s is Present && s->Present_0.polling_interval_us > 0 ==> r is Ok
                    && r->Ok_0 is EventQueuePolling && outside::duration_nanos(r->Ok_0->interval)
                    == s->Present_0.polling_interval_us * 1000
            }
        }),
        response.selected_features@.len() == 0 ==> r is Ok && r->Ok_0 is NoFeature,
        response.selected_features@.len() == 1 && response.selected_features@[0]@
            == "eventfd_wakeup"@ ==> r is Ok && r->Ok_0 is EventFd,
{
    lemma_feature_names_differ();
}

/// Settings carry the whole microseconds of an interval there and back.
pub proof fn law_interval_is_carried(
    interval: Duration,
    s: Result<EventQueuePollingSettings, NegotiationFailure>,
    back: Result<Duration, NegotiationFailure>,
)
    requires
        call_ensures(EventQueuePollingSettings::from_interval, (interval,), s),
        s is Ok ==> call_ensures(EventQueuePollingSettings::interval, (&s->Ok_0,), back),
    ensures
        s is Ok <==> 1000 <= outside::duration_nanos(interval) < 1000 * (u64::MAX + 1),
        s is Ok ==> back is Ok && outside::duration_nanos(back->Ok_0) == outside::duration_nanos(
            interval,
        ) / 1000 * 1000,
        outside::duration_nanos(interval) < 1000 ==> s == Err::<
            EventQueuePollingSettings,
            NegotiationFailure,
        >(NegotiationFailure::ZeroInterval),
{
}

/// A refusal selects no protocol and says why.
pub proof fn law_refusal_says_why(message: String, a: NegotiationResponse, b: NegotiationResponse)
    requires
        call_ensures(NegotiationResponse::version_not_supported, (), a),
        call_ensures(NegotiationResponse::json_parse_error, (message,), b),
    ensures
        a.selected_protocol != 4,
        a.error is Some && a.error->0.code@ == "VERSION_NOT_SUPPORTED"@,
        a.selected_features@.len() == 0,
        b.selected_protocol != 4,
        b.error is Some && b.error->0.code@ == "JSON_PARSE_ERROR"@ && b.error->0.message@
            == message@,
        b.selected_features@.len() == 0,
{
}

/// Without a machine to ask, a client and a server are taken to be on Linux.
pub proof fn law_linux_is_taken_for_granted(
    config: Config,
    platform: Platform,
    a: Result<NegotiationRequest, NegotiationFailure>,
    b: Result<NegotiationRequest, NegotiationFailure>,
    request: NegotiationRequest,
    x: NegotiatedFeature,
    y: NegotiatedFeature,
    there: bool,
)
    requires
        platform.linux,
        call_ensures(NegotiationRequest::from_config, (&config,), a),
        call_ensures(NegotiationRequest::from_config_on, (&config, platform), b),
        call_ensures(select_feature, (&request,), x),
        call_ensures(select_feature_on, (&request, platform), y),
        call_ensures(eventfd_supported, (), there),
    ensures
        a is Ok <==> b is Ok,
        a is Ok ==> a->Ok_0.settings == b->Ok_0.settings && a->Ok_0.supports_features@.len()
            == b->Ok_0.supports_features@.len(),
        x.view() == y.view(),
        there,
{
}

} // verus!
