//! What a client session is configured with.
use crate::buffer::bytes_from_vec;
use crate::request::{Credentials, QoS, TopicFilter, WillMessage};
use crate::safety::MqttSafety;
use crate::text::shared;
use std::sync::Arc;
use vstd::prelude::*;
use vstd::string::*;

verus! {

/// Under which key the configuration of a client is registered.
pub const CLIENT_CONFIG_STATICS_KEY: &'static str = "hotaru_mqtt::client_config";

/// The seconds that a client waits for an acknowledgement.
pub const DEFAULT_ACK_TIMEOUT_SECS: u64 = 30;

/// The seconds between two signs of life of a client that does not say otherwise.
pub const DEFAULT_KEEP_ALIVE_SECS: u16 = 60;

/// The seconds that a client waits for the answer to its CONNECT if it does not say
/// otherwise.
pub const DEFAULT_CONNECT_TIMEOUT_SECS: u64 = 10;

/// The configuration of a client session.
pub struct MqttClientConfig {
    pub client_id: Arc<str>,
    pub clean_session: bool,
    pub keep_alive_secs: u16,
    pub credentials: Option<Credentials>,
    pub will: Option<WillMessage>,
    pub initial_subscriptions: Vec<TopicFilter>,
    pub safety: MqttSafety,
    pub connect_timeout_secs: u64,
}

impl MqttClientConfig {
    /// A client with a clean session, a keep-alive of a minute and nothing else.
    pub fn new(client_id: &str) -> (r: MqttClientConfig)
        ensures
            (*r.client_id)@ == client_id@,
            r.clean_session,
            r.keep_alive_secs == DEFAULT_KEEP_ALIVE_SECS,
            r.credentials is None,
            r.will is None,
            r.initial_subscriptions@.len() == 0,
            r.safety@ == crate::safety::unset(),
            r.connect_timeout_secs == DEFAULT_CONNECT_TIMEOUT_SECS,
    {
        MqttClientConfig {
            client_id: shared(client_id),
            clean_session: true,
            keep_alive_secs: DEFAULT_KEEP_ALIVE_SECS,
            credentials: None,
            will: None,
            initial_subscriptions: Vec::new(),
            safety: MqttSafety::new(),
            connect_timeout_secs: DEFAULT_CONNECT_TIMEOUT_SECS,
        }
    }

    pub fn clean_session(self, clean: bool) -> (r: MqttClientConfig)
        ensures
            r == (MqttClientConfig { clean_session: clean, ..self }),
    {
        let mut c = self;
        c.clean_session = clean;
        c
    }

    pub fn keep_alive(self, secs: u16) -> (r: MqttClientConfig)
        ensures
            r == (MqttClientConfig { keep_alive_secs: secs, ..self }),
    {
        let mut c = self;
        c.keep_alive_secs = secs;
        c
    }

    pub fn with_credentials(self, username: &str, password: &str) -> (r: MqttClientConfig)
        ensures
            r == (MqttClientConfig { credentials: r.credentials, ..self }),
            r.credentials matches Some(c) && (*c.username)@ == username@ && crate::buffer::bytes_of(
                c.password,
            ) == password.spec_bytes(),
    {
        let mut body: Vec<u8> = Vec::new();
        crate::wire::put_all(&mut body, password.as_bytes());
        assert(body@ =~= password.spec_bytes());
        let mut c = self;
        c.credentials = Some(Credentials::new(username, bytes_from_vec(body)));
        c
    }

    pub fn with_will(self, will: WillMessage) -> (r: MqttClientConfig)
        ensures
            r == (MqttClientConfig { will: Some(will), ..self }),
    {
        let mut c = self;
        c.will = Some(will);
        c
    }

    pub fn with_safety(self, safety: MqttSafety) -> (r: MqttClientConfig)
        ensures
            r == (MqttClientConfig { safety, ..self }),
    {
        let mut c = self;
        c.safety = safety;
        c
    }

    /// Adds a filter that the client subscribes to as soon as it is connected.
    pub fn with_initial_subscribe(self, filter: &str, qos: QoS) -> (r: MqttClientConfig)
        ensures
            r == (MqttClientConfig { initial_subscriptions: r.initial_subscriptions, ..self }),
            r.initial_subscriptions@.len() == self.initial_subscriptions@.len() + 1,
            r.initial_subscriptions@.drop_last() == self.initial_subscriptions@,
            (*r.initial_subscriptions@.last().filter)@ == filter@,
            r.initial_subscriptions@.last().qos == qos,
    {
        let mut c = self;
        c.initial_subscriptions.push(TopicFilter::new(filter, qos));
        assert(c.initial_subscriptions@.drop_last() =~= self.initial_subscriptions@);
        c
    }
}

} // verus!
