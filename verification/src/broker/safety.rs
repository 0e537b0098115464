//! Limits and policies of the broker.
use crate::request::QoS;
use std::time::Duration;
use vstd::prelude::*;

verus! {

pub const DEFAULT_MAX_INFLIGHT: usize = 20;

pub const DEFAULT_MAX_QUEUED: usize = 1000;

pub const DEFAULT_MAX_CONNECTIONS: usize = 10_000;

pub const DEFAULT_SHUTDOWN_GRACE_SECS: u64 = 30;

pub const DEFAULT_MAX_RETAINED_PER_TENANT: usize = 65_536;

pub const DEFAULT_MAX_RETAINED_BYTES_PER_TENANT: usize = 16_777_216;

pub const DEFAULT_MAX_SUBS_PER_CLIENT: usize = 1_024;

pub const DEFAULT_MAX_PERSISTENT_PER_TENANT: usize = 4_096;

/// The duration of a number of whole seconds.
pub uninterp spec fn whole_seconds(secs: u64) -> Duration;

/// `std::time::Duration::from_secs`: that many whole seconds.
pub assume_specification[ Duration::from_secs ](secs: u64) -> (r: Duration)
    ensures
        r == whole_seconds(secs),
;

/// What happens when a subscriber's queue is full.
#[derive(Debug, Clone, Copy, PartialEq, Eq, Structural)]
pub enum SlowConsumerPolicy {
    /// A QoS 0 message is dropped; above that the subscriber is disconnected,
    /// since a message that was promised cannot be dropped in silence.
    DropOldestQos0,
    /// The subscriber is disconnected.
    DisconnectLaggard,
}

impl Default for SlowConsumerPolicy {
    fn default() -> (r: SlowConsumerPolicy)
        ensures
            r == SlowConsumerPolicy::DropOldestQos0,
    {
        SlowConsumerPolicy::DropOldestQos0
    }
}

/// Whether a full queue closes the connection.
pub open spec fn closes(p: SlowConsumerPolicy, qos: QoS) -> bool {
    p == SlowConsumerPolicy::DisconnectLaggard || qos != QoS::AtMostOnce
}

impl SlowConsumerPolicy {
    /// Whether a full queue closes the connection.
    pub fn should_close_on_overflow(self, qos: QoS) -> (r: bool)
        ensures
            r == closes(self, qos),
    {
        match self {
            SlowConsumerPolicy::DropOldestQos0 => qos != QoS::AtMostOnce,
            SlowConsumerPolicy::DisconnectLaggard => true,
        }
    }
}

/// Limits and policies of a broker.
#[derive(Debug, Clone)]
pub struct BrokerSafety {
    max_inflight_messages: Option<usize>,
    max_queued_messages: Option<usize>,
    max_connections: Option<usize>,
    slow_consumer_policy: Option<SlowConsumerPolicy>,
    shutdown_grace_period: Option<Duration>,
    max_retained_messages_per_tenant: Option<usize>,
    max_retained_bytes_per_tenant: Option<usize>,
    max_subscriptions_per_client: Option<usize>,
    max_persistent_sessions_per_tenant: Option<usize>,
}

/// The limits that were set.
pub struct BrokerSafetyModel {
    pub max_inflight_messages: Option<usize>,
    pub max_queued_messages: Option<usize>,
    pub max_connections: Option<usize>,
    pub slow_consumer_policy: Option<SlowConsumerPolicy>,
    pub shutdown_grace_period: Option<Duration>,
    pub max_retained_messages_per_tenant: Option<usize>,
    pub max_retained_bytes_per_tenant: Option<usize>,
    pub max_subscriptions_per_client: Option<usize>,
    pub max_persistent_sessions_per_tenant: Option<usize>,
}

impl View for BrokerSafety {
    type V = BrokerSafetyModel;

    closed spec fn view(&self) -> BrokerSafetyModel {
        BrokerSafetyModel {
            max_inflight_messages: self.max_inflight_messages,
            max_queued_messages: self.max_queued_messages,
            max_connections: self.max_connections,
            slow_consumer_policy: self.slow_consumer_policy,
            shutdown_grace_period: self.shutdown_grace_period,
            max_retained_messages_per_tenant: self.max_retained_messages_per_tenant,
            max_retained_bytes_per_tenant: self.max_retained_bytes_per_tenant,
            max_subscriptions_per_client: self.max_subscriptions_per_client,
            max_persistent_sessions_per_tenant: self.max_persistent_sessions_per_tenant,
        }
    }
}

/// No limit was set.
pub open spec fn unset() -> BrokerSafetyModel {
    BrokerSafetyModel {
        max_inflight_messages: None,
        max_queued_messages: None,
        max_connections: None,
        slow_consumer_policy: None,
        shutdown_grace_period: None,
        max_retained_messages_per_tenant: None,
        max_retained_bytes_per_tenant: None,
        max_subscriptions_per_client: None,
        max_persistent_sessions_per_tenant: None,
    }
}

impl Default for BrokerSafety {
    fn default() -> (r: BrokerSafety)
        ensures
            r@ == unset(),
    {
        BrokerSafety {
            max_inflight_messages: None,
            max_queued_messages: None,
            max_connections: None,
            slow_consumer_policy: None,
            shutdown_grace_period: None,
            max_retained_messages_per_tenant: None,
            max_retained_bytes_per_tenant: None,
            max_subscriptions_per_client: None,
            max_persistent_sessions_per_tenant: None,
        }
    }
}

impl BrokerSafety {
    pub fn new() -> (r: BrokerSafety)
        ensures
            r@ == unset(),
    {
        BrokerSafety::default()
    }

    /// The most unacknowledged messages to one subscriber.
    pub fn max_inflight_messages(&self) -> (r: usize)
        ensures
            r == (match self@.max_inflight_messages {
                Some(v) => v,
                None => DEFAULT_MAX_INFLIGHT,
            }),
    {
        match self.max_inflight_messages {
            Some(v) => v,
            None => DEFAULT_MAX_INFLIGHT,
        }
    }

    /// The capacity of a queue.
    pub fn max_queued_messages(&self) -> (r: usize)
        ensures
            r == (match self@.max_queued_messages {
                Some(v) => v,
                None => DEFAULT_MAX_QUEUED,
            }),
    {
        match self.max_queued_messages {
            Some(v) => v,
            None => DEFAULT_MAX_QUEUED,
        }
    }

    /// The most connections at once.
    pub fn max_connections(&self) -> (r: usize)
        ensures
            r == (match self@.max_connections {
                Some(v) => v,
                None => DEFAULT_MAX_CONNECTIONS,
            }),
    {
        match self.max_connections {
            Some(v) => v,
            None => DEFAULT_MAX_CONNECTIONS,
        }
    }

    /// What happens when a queue is full.
    pub fn slow_consumer_policy(&self) -> (r: SlowConsumerPolicy)
        ensures
            r == (match self@.slow_consumer_policy {
                Some(v) => v,
                None => SlowConsumerPolicy::DropOldestQos0,
            }),
    {
        match self.slow_consumer_policy {
            Some(v) => v,
            None => SlowConsumerPolicy::DropOldestQos0,
        }
    }

    /// How long a shutdown waits for the connections to end.
    pub fn shutdown_grace_period(&self) -> (r: Duration)
        ensures
            r == (match self@.shutdown_grace_period {
                Some(v) => v,
                None => whole_seconds(DEFAULT_SHUTDOWN_GRACE_SECS),
            }),
    {
        match self.shutdown_grace_period {
            Some(v) => v,
            None => Duration::from_secs(DEFAULT_SHUTDOWN_GRACE_SECS),
        }
    }

    /// The most retained messages of one tenant.
    pub fn max_retained_messages_per_tenant(&self) -> (r: usize)
        ensures
            r == (match self@.max_retained_messages_per_tenant {
                Some(v) => v,
                None => DEFAULT_MAX_RETAINED_PER_TENANT,
            }),
    {
        match self.max_retained_messages_per_tenant {
            Some(v) => v,
            None => DEFAULT_MAX_RETAINED_PER_TENANT,
        }
    }

    /// The most retained payload bytes of one tenant.
    pub fn max_retained_bytes_per_tenant(&self) -> (r: usize)
        ensures
            r == (match self@.max_retained_bytes_per_tenant {
                Some(v) => v,
                None => DEFAULT_MAX_RETAINED_BYTES_PER_TENANT,
            }),
    {
        match self.max_retained_bytes_per_tenant {
            Some(v) => v,
            None => DEFAULT_MAX_RETAINED_BYTES_PER_TENANT,
        }
    }

    /// The most subscriptions of one client.
    pub fn max_subscriptions_per_client(&self) -> (r: usize)
        ensures
            r == (match self@.max_subscriptions_per_client {
                Some(v) => v,
                None => DEFAULT_MAX_SUBS_PER_CLIENT,
            }),
    {
        match self.max_subscriptions_per_client {
            Some(v) => v,
            None => DEFAULT_MAX_SUBS_PER_CLIENT,
        }
    }

    /// The most stored sessions of one tenant.
    pub fn max_persistent_sessions_per_tenant(&self) -> (r: usize)
        ensures
            r == (match self@.max_persistent_sessions_per_tenant {
                Some(v) => v,
                None => DEFAULT_MAX_PERSISTENT_PER_TENANT,
            }),
    {
        match self.max_persistent_sessions_per_tenant {
            Some(v) => v,
            None => DEFAULT_MAX_PERSISTENT_PER_TENANT,
        }
    }

    pub fn with_max_inflight_messages(self, n: usize) -> (r: BrokerSafety)
        ensures
            r@ == (BrokerSafetyModel { max_inflight_messages: Some(n), ..self@ }),
    {
        let mut s = self;
        s.max_inflight_messages = Some(n);
        s
    }

    pub fn with_max_queued_messages(self, n: usize) -> (r: BrokerSafety)
        ensures
            r@ == (BrokerSafetyModel { max_queued_messages: Some(n), ..self@ }),
    {
        let mut s = self;
        s.max_queued_messages = Some(n);
        s
    }

    pub fn with_max_connections(self, n: usize) -> (r: BrokerSafety)
        ensures
            r@ == (BrokerSafetyModel { max_connections: Some(n), ..self@ }),
    {
        let mut s = self;
        s.max_connections = Some(n);
        s
    }

    pub fn with_slow_consumer_policy(self, p: SlowConsumerPolicy) -> (r: BrokerSafety)
        ensures
            r@ == (BrokerSafetyModel { slow_consumer_policy: Some(p), ..self@ }),
    {
        let mut s = self;
        s.slow_consumer_policy = Some(p);
        s
    }

    pub fn with_shutdown_grace_period(self, d: Duration) -> (r: BrokerSafety)
        ensures
            r@ == (BrokerSafetyModel { shutdown_grace_period: Some(d), ..self@ }),
    {
        let mut s = self;
        s.shutdown_grace_period = Some(d);
        s
    }

    pub fn with_max_retained_messages_per_tenant(self, n: usize) -> (r: BrokerSafety)
        ensures
            r@ == (BrokerSafetyModel { max_retained_messages_per_tenant: Some(n), ..self@ }),
    {
        let mut s = self;
        s.max_retained_messages_per_tenant = Some(n);
        s
    }

    pub fn with_max_retained_bytes_per_tenant(self, n: usize) -> (r: BrokerSafety)
        ensures
            r@ == (BrokerSafetyModel { max_retained_bytes_per_tenant: Some(n), ..self@ }),
    {
        let mut s = self;
        s.max_retained_bytes_per_tenant = Some(n);
        s
    }

    pub fn with_max_subscriptions_per_client(self, n: usize) -> (r: BrokerSafety)
        ensures
            r@ == (BrokerSafetyModel { max_subscriptions_per_client: Some(n), ..self@ }),
    {
        let mut s = self;
        s.max_subscriptions_per_client = Some(n);
        s
    }

    pub fn with_max_persistent_sessions_per_tenant(self, n: usize) -> (r: BrokerSafety)
        ensures
            r@ == (BrokerSafetyModel { max_persistent_sessions_per_tenant: Some(n), ..self@ }),
    {
        let mut s = self;
        s.max_persistent_sessions_per_tenant = Some(n);
        s
    }
}

} // verus!
