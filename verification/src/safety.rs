//! Limits at the connection, of client and server alike.
//!
//! A limit that was not set has a secure default, which is applied when it is
//! read.
use std::time::Duration;
use vstd::prelude::*;

verus! {

pub const DEFAULT_MAX_PACKET_SIZE: usize = 268_435_455;

/// The largest body that the wire can carry.
pub const SPEC_MAX_PACKET_SIZE: usize = 268_435_455;

pub const DEFAULT_MAX_INFLIGHT_MESSAGES: usize = 20;

pub const DEFAULT_MAX_QUEUED_MESSAGES: usize = 1000;

pub const DEFAULT_RECEIVE_MAXIMUM_INBOUND: usize = 64;

pub const DEFAULT_MAX_FILTERS_PER_SUBSCRIBE: usize = 64;

/// Limits of a connection.
#[derive(Debug, Clone)]
pub struct MqttSafety {
    max_packet_size: Option<usize>,
    max_inflight_messages: Option<usize>,
    max_queued_messages: Option<usize>,
    worker_idle_timeout: Option<Duration>,
    receive_maximum_inbound: Option<usize>,
    max_filters_per_subscribe: Option<usize>,
}

/// The limits that were set.
pub struct MqttSafetyModel {
    pub max_packet_size: Option<usize>,
    pub max_inflight_messages: Option<usize>,
    pub max_queued_messages: Option<usize>,
    pub worker_idle_timeout: Option<Duration>,
    pub receive_maximum_inbound: Option<usize>,
    pub max_filters_per_subscribe: Option<usize>,
}

impl View for MqttSafety {
    type V = MqttSafetyModel;

    closed spec fn view(&self) -> MqttSafetyModel {
        MqttSafetyModel {
            max_packet_size: self.max_packet_size,
            max_inflight_messages: self.max_inflight_messages,
            max_queued_messages: self.max_queued_messages,
            worker_idle_timeout: self.worker_idle_timeout,
            receive_maximum_inbound: self.receive_maximum_inbound,
            max_filters_per_subscribe: self.max_filters_per_subscribe,
        }
    }
}

/// No limit was set.
pub open spec fn unset() -> MqttSafetyModel {
    MqttSafetyModel {
        max_packet_size: None,
        max_inflight_messages: None,
        max_queued_messages: None,
        worker_idle_timeout: None,
        receive_maximum_inbound: None,
        max_filters_per_subscribe: None,
    }
}

impl Default for MqttSafety {
    fn default() -> (r: MqttSafety)
        ensures
            r@ == unset(),
    {
        MqttSafety {
            max_packet_size: None,
            max_inflight_messages: None,
            max_queued_messages: None,
            worker_idle_timeout: None,
            receive_maximum_inbound: None,
            max_filters_per_subscribe: None,
        }
    }
}

impl MqttSafety {
    pub fn new() -> (r: MqttSafety)
        ensures
            r@ == unset(),
    {
        MqttSafety::default()
    }

    /// The longest body that is read.
    pub fn max_packet_size(&self) -> (r: usize)
        ensures
            r == (match self@.max_packet_size {
                Some(v) => v,
                None => DEFAULT_MAX_PACKET_SIZE,
            }),
    {
        match self.max_packet_size {
            Some(v) => v,
            None => DEFAULT_MAX_PACKET_SIZE,
        }
    }

    /// The most outbound operations that await their acknowledgement.
    pub fn max_inflight_messages(&self) -> (r: usize)
        ensures
            r == (match self@.max_inflight_messages {
                Some(v) => v,
                None => DEFAULT_MAX_INFLIGHT_MESSAGES,
            }),
    {
        match self.max_inflight_messages {
            Some(v) => v,
            None => DEFAULT_MAX_INFLIGHT_MESSAGES,
        }
    }

    /// The capacity of a queue.
    pub fn max_queued_messages(&self) -> (r: usize)
        ensures
            r == (match self@.max_queued_messages {
                Some(v) => v,
                None => DEFAULT_MAX_QUEUED_MESSAGES,
            }),
    {
        match self.max_queued_messages {
            Some(v) => v,
            None => DEFAULT_MAX_QUEUED_MESSAGES,
        }
    }

    /// After how long an idle worker ends; never where it is not set.
    pub fn worker_idle_timeout(&self) -> (r: Option<Duration>)
        ensures
            r == self@.worker_idle_timeout,
    {
        self.worker_idle_timeout
    }

    /// The most inbound QoS 2 messages that await their release.
    pub fn receive_maximum_inbound(&self) -> (r: usize)
        ensures
            r == (match self@.receive_maximum_inbound {
                Some(v) => v,
                None => DEFAULT_RECEIVE_MAXIMUM_INBOUND,
            }),
    {
        match self.receive_maximum_inbound {
            Some(v) => v,
            None => DEFAULT_RECEIVE_MAXIMUM_INBOUND,
        }
    }

    /// The most filters in one SUBSCRIBE or UNSUBSCRIBE.
    pub fn max_filters_per_subscribe(&self) -> (r: usize)
        ensures
            r == (match self@.max_filters_per_subscribe {
                Some(v) => v,
                None => DEFAULT_MAX_FILTERS_PER_SUBSCRIBE,
            }),
    {
        match self.max_filters_per_subscribe {
            Some(v) => v,
            None => DEFAULT_MAX_FILTERS_PER_SUBSCRIBE,
        }
    }

    pub fn with_max_packet_size(self, n: usize) -> (r: MqttSafety)
        ensures
            r@ == (MqttSafetyModel { max_packet_size: Some(n), ..self@ }),
    {
        let mut s = self;
        s.max_packet_size = Some(n);
        s
    }

    pub fn with_max_inflight_messages(self, n: usize) -> (r: MqttSafety)
        ensures
            r@ == (MqttSafetyModel { max_inflight_messages: Some(n), ..self@ }),
    {
        let mut s = self;
        s.max_inflight_messages = Some(n);
        s
    }

    pub fn with_max_queued_messages(self, n: usize) -> (r: MqttSafety)
        ensures
            r@ == (MqttSafetyModel { max_queued_messages: Some(n), ..self@ }),
    {
        let mut s = self;
        s.max_queued_messages = Some(n);
        s
    }

    pub fn with_worker_idle_timeout(self, d: Duration) -> (r: MqttSafety)
        ensures
            r@ == (MqttSafetyModel { worker_idle_timeout: Some(d), ..self@ }),
    {
        let mut s = self;
        s.worker_idle_timeout = Some(d);
        s
    }

    pub fn with_receive_maximum_inbound(self, n: usize) -> (r: MqttSafety)
        ensures
            r@ == (MqttSafetyModel { receive_maximum_inbound: Some(n), ..self@ }),
    {
        let mut s = self;
        s.receive_maximum_inbound = Some(n);
        s
    }

    pub fn with_max_filters_per_subscribe(self, n: usize) -> (r: MqttSafety)
        ensures
            r@ == (MqttSafetyModel { max_filters_per_subscribe: Some(n), ..self@ }),
    {
        let mut s = self;
        s.max_filters_per_subscribe = Some(n);
        s
    }
}

} // verus!
