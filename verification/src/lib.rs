//! MQTT 3.1.1: codec, sessions, topics, client and broker.
pub mod auth;
pub mod broker;
pub mod buffer;
pub mod channel;
pub mod client;
pub mod codec;
pub mod context;
pub mod conversation;
pub mod dispatch;
pub mod display;
pub mod error;
pub mod keyed;
pub mod layout;
pub mod packet;
pub mod pmap;
pub mod properties;
pub mod protocol;
pub mod request;
pub mod safety;
pub mod session;
pub mod text;
pub mod topic;
pub mod wire;

pub use auth::acl::JsonAclChecker;
pub use auth::json::JsonAuthenticator;
pub use auth::password::{
    verify_password, DefaultPasswordVerifier, PasswordHash, PasswordVerifier,
};
pub use broker::broker::{Broker, RetainedMessage, ShutdownReport, SubscriberEntry};
pub use broker::defaults::{
    AcceptAllAuthenticator, AllowAllAclChecker, DefaultRetainedStore, DefaultSessionStore,
    DenyAllAuthenticator, SingleTenantResolver,
};
pub use broker::safety::{BrokerSafety, SlowConsumerPolicy};
pub use broker::server::MqttServerProtocol;
pub use broker::statics::BROKER_STATICS_KEY;
pub use broker::traits::{
    AclChecker, AclDecision, AuthResult, Authenticator, RetainedEntry, RetainedStore, SessionStore,
    TenantId, TenantResolver,
};
pub use channel::{ack_inbound_publish_pre_chain, MqttChannel, SocketAddress, WriteCmd};
pub use client::{MqttClientConfig, CLIENT_CONFIG_STATICS_KEY};
pub use context::MqttContext;
pub use error::{CodecError, MqttError, TimeoutKind, Violation};
pub use packet::{
    incoming_from_packet, ConnackPacket, ConnackReturnCode, ConnectPacket, Packet, ProtocolVersion,
    PublishPacket, SubackPacket, SubscribePacket, TopicSubscription, UnsubackPacket,
    UnsubscribePacket, WillPacket,
};
pub use properties::Properties;
pub use protocol::{DefaultInboundHandler, MqttClientProtocol};
pub use request::{
    Credentials, IncomingPublish, MqttRequest, MqttResponse, PacketId, PublishAck, PublishRequest,
    QoS, SubackCode, TopicFilter, WillMessage,
};
pub use safety::{MqttSafety, SPEC_MAX_PACKET_SIZE};
pub use session::{AckSlot, BindInfo, MqttSession};
pub use topic::{
    is_dollar_prefixed_first_segment, parse_publish_topic, parse_subscribe_filter,
    path_to_wire_filter, validate_publish_topic, validate_subscribe_filter,
};
