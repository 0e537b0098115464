//! What a handler of a message or a request sees.
use crate::buffer;
use crate::channel::{MqttChannel, ProtocolRole};
use crate::request;
use crate::request::{IncomingPublish, MqttRequest, MqttResponse, PublishAck, PublishRequest};
use crate::text;
use crate::text::{clone_opt, split_ascii, str_eq};
use std::sync::Arc;
use vstd::prelude::*;
use vstd::string::*;

verus! {

/// The connection that a context belongs to.
pub struct ChannelInfo {
    pub connection_id: u64,
    pub role: ProtocolRole,
    pub client_id: Option<Arc<str>>,
}

/// What a handler sees: the message that came in, or the request that goes out with
/// its response.
pub struct MqttContext {
    pub request: MqttRequest,
    pub response: MqttResponse,
    pub incoming: Option<IncomingPublish>,
    pub channel: Option<ChannelInfo>,
    /// Whether the message goes on behind the handler.
    pub propagate: bool,
    /// The named levels of the handler's path, each with its place.
    pub names: Vec<(Arc<str>, usize)>,
}

/// The place of the first level of a path with this name.
pub open spec fn place_of_name(names: Seq<(Arc<str>, usize)>, name: Seq<char>) -> Option<usize>
    decreases names.len(),
{
    if names.len() == 0 {
        None
    } else if (*names[0].0)@ == name {
        Some(names[0].1)
    } else {
        place_of_name(names.drop_first(), name)
    }
}

impl Default for MqttContext {
    fn default() -> (r: MqttContext)
        ensures
            r.incoming is None,
            r.channel is None,
            r.propagate,
            r.names@.len() == 0,
            r.response == MqttResponse::Published(PublishAck::Sent),
            r.request matches MqttRequest::Publish(p) && (*p.topic)@.len() == 0
                && buffer::bytes_of(p.payload).len() == 0 && p.qos
                == request::QoS::AtMostOnce && !p.retain,
    {
        MqttContext {
            request: MqttRequest::Publish(PublishRequest::default()),
            response: MqttResponse::Published(PublishAck::Sent),
            incoming: None,
            channel: None,
            propagate: true,
            names: Vec::new(),
        }
    }
}

impl MqttContext {
    /// Notes the connection.
    pub fn install_channel(&mut self, channel: &MqttChannel)
        ensures
            final(self).channel matches Some(c) && c.connection_id == channel@.connection_id
                && c.role == channel@.role && text::opt_chars(c.client_id) == (
            match channel@.session.bind {
                Some(b) => Some(b.0),
                None => None,
            }),
            final(self).incoming == old(self).incoming,
            final(self).propagate == old(self).propagate,
            final(self).names == old(self).names,
            final(self).request == old(self).request,
            final(self).response == old(self).response,
    {
        self.channel = Some(
            ChannelInfo {
                connection_id: channel.connection_id(),
                role: channel.role(),
                client_id: channel.client_id(),
            },
        );
    }

    pub fn channel(&self) -> (r: Option<&ChannelInfo>)
        ensures
            r is Some <==> self.channel is Some,
            r matches Some(c) ==> *c == self.channel->0,
    {
        match &self.channel {
            Some(c) => Some(c),
            None => None,
        }
    }

    pub fn set_incoming(&mut self, p: IncomingPublish)
        ensures
            *final(self) == (MqttContext { incoming: Some(p), ..*old(self) }),
    {
        self.incoming = Some(p);
    }

    /// Notes the named levels of the handler's path.
    pub fn set_endpoint(&mut self, names: Vec<(Arc<str>, usize)>)
        ensures
            *final(self) == (MqttContext { names, ..*old(self) }),
    {
        self.names = names;
    }

    /// A context for a message that came in.
    pub fn for_inbound_dispatch(
        channel: &MqttChannel,
        incoming: IncomingPublish,
        names: Vec<(Arc<str>, usize)>,
    ) -> (r: MqttContext)
        ensures
            r.incoming == Some(incoming),
            r.names == names,
            r.propagate,
            r.response == MqttResponse::Published(PublishAck::Sent),
            r.request matches MqttRequest::Publish(p) && (*p.topic)@.len() == 0
                && buffer::bytes_of(p.payload).len() == 0 && p.qos
                == request::QoS::AtMostOnce && !p.retain,
            r.channel matches Some(c) && c.connection_id == channel@.connection_id && c.role
                == channel@.role && text::opt_chars(c.client_id) == (match channel@.session.bind {
                Some(b) => Some(b.0),
                None => None,
            }),
    {
        let mut ctx = MqttContext::default();
        ctx.install_channel(channel);
        ctx.set_incoming(incoming);
        ctx.set_endpoint(names);
        ctx
    }

    pub fn should_propagate(&self) -> (r: bool)
        ensures
            r == self.propagate,
    {
        self.propagate
    }

    /// Keeps the message from going on.
    pub fn suppress_propagation(&mut self)
        ensures
            *final(self) == (MqttContext { propagate: false, ..*old(self) }),
    {
        self.propagate = false;
    }

    /// A handler that failed keeps the message from going on.
    pub fn handle_error(&mut self)
        ensures
            *final(self) == (MqttContext { propagate: false, ..*old(self) }),
    {
        self.propagate = false;
    }

    /// The topic of the message.
    pub fn topic(&self) -> (r: Option<&str>)
        ensures
            r is Some <==> self.incoming is Some,
            r matches Some(t) ==> t@ == self.incoming->0@.topic,
    {
        match &self.incoming {
            Some(p) => Some(p.topic()),
            None => None,
        }
    }

    /// The payload of the message.
    pub fn payload(&self) -> (r: Option<&[u8]>)
        ensures
            r is Some <==> self.incoming is Some,
            r matches Some(b) ==> b@ == self.incoming->0@.payload,
    {
        match &self.incoming {
            Some(p) => Some(p.payload()),
            None => None,
        }
    }

    /// The level of the message's topic at the place that the handler's path gives a
    /// name.
    pub fn param(&self, name: &str) -> (r: Option<String>)
        ensures
            match (self.incoming, place_of_name(self.names@, name@)) {
                (Some(p), Some(i)) => {
                    let levels = text::levels(p@.topic);
                    if i < levels.len() {
                        r matches Some(s) && s@ == levels[i as int]
                    } else {
                        r is None
                    }
                },
                _ => r is None,
            },
    {
        let topic: &str = match self.topic() {
            Some(t) => t,
            None => {
                return None;
            },
        };
        let ghost all = self.names@;
        let mut i: usize = 0;
        assert(all.skip(0) =~= all);
        while i < self.names.len()
            invariant
                i <= self.names@.len(),
                all == self.names@,
                self.incoming is Some,
                topic@ == self.incoming->0@.topic,
                place_of_name(all, name@) == place_of_name(all.skip(i as int), name@),
            decreases self.names@.len() - i,
        {
            assert(all.skip(i as int)[0] == all[i as int]);
            assert(all.skip(i as int).drop_first() =~= all.skip(i + 1));
            if str_eq(&self.names[i].0, name) {
                let place: usize = self.names[i].1;
                let levels: Vec<&str> = split_ascii(topic, 0x2F);
                if place < levels.len() {
                    let level: &str = levels[place];
                    assert(level@ == text::all_chars(levels@)[place as int]);
                    return Some(level.to_owned());
                }
                return None;
            }
            i += 1;
        }
        None
    }

    /// The client of the connection.
    pub fn client_id(&self) -> (r: Option<Arc<str>>)
        ensures
            text::opt_chars(r) == (match self.channel {
                Some(c) => text::opt_chars(c.client_id),
                None => None,
            }),
    {
        match &self.channel {
            Some(c) => clone_opt(&c.client_id),
            None => None,
        }
    }

    /// Which end of the connection this is; a client where there is none.
    pub fn role(&self) -> (r: ProtocolRole)
        ensures
            r == (match self.channel {
                Some(c) => c.role,
                None => ProtocolRole::Client,
            }),
    {
        match &self.channel {
            Some(c) => c.role,
            None => ProtocolRole::Client,
        }
    }

    pub fn inject_request(&mut self, req: MqttRequest)
        ensures
            *final(self) == (MqttContext { request: req, ..*old(self) }),
    {
        self.request = req;
    }

    pub fn into_response(self) -> (r: MqttResponse)
        ensures
            r == self.response,
    {
        self.response
    }
}

/// A name stands for the place that is given with it, the first time it stands in the
/// list; a name that does not stand there has no place.
pub proof fn law_first_name_counts(names: Seq<(Arc<str>, usize)>, name: Seq<char>)
    ensures
        place_of_name(names, name) is None <==> forall|i: int|
            0 <= i < names.len() ==> (*(#[trigger] names[i]).0)@ != name,
        forall|i: int|
            0 <= i < names.len() && (*(#[trigger] names[i]).0)@ == name && (forall|j: int|
                0 <= j < i ==> (*(#[trigger] names[j]).0)@ != name) ==> place_of_name(names, name)
                == Some(names[i].1),
    decreases names.len(),
{
    if names.len() > 0 {
        let rest = names.drop_first();
        law_first_name_counts(rest, name);
        assert forall|i: int| 0 <= i < rest.len() implies #[trigger] rest[i] == names[i + 1] by {}
        if place_of_name(names, name) is None {
            assert forall|i: int| 0 <= i < names.len() implies (*(#[trigger] names[i]).0)@
                != name by {
                if i > 0 {
                    assert((*rest[i - 1].0)@ != name);
                }
            }
        }
        if forall|i: int| 0 <= i < names.len() ==> (*(#[trigger] names[i]).0)@ != name {
            assert((*names[0].0)@ != name);
            assert forall|i: int| 0 <= i < rest.len() implies (*(#[trigger] rest[i]).0)@ != name by {
                assert((*names[i + 1].0)@ != name);
            }
        }
        assert forall|i: int|
            0 <= i < names.len() && (*(#[trigger] names[i]).0)@ == name && (forall|j: int|
                0 <= j < i ==> (*(#[trigger] names[j]).0)@ != name) implies place_of_name(
            names,
            name,
        ) == Some(names[i].1) by {
            if i > 0 {
                assert((*names[0].0)@ != name);
                assert(rest[i - 1] == names[i]);
                assert forall|j: int| 0 <= j < i - 1 implies (*(#[trigger] rest[j]).0)@ != name by {
                    assert((*names[j + 1].0)@ != name);
                }
            }
        }
    }
}

} // verus!
