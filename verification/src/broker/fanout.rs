//! The worker that hands a connection's messages on.
use crate::broker::broker;
use crate::broker::inbound;
use crate::broker::inbound::{ChainOutcome, ServerEvent, ServerStep};
use crate::broker::server;
use crate::broker::server::ServerConnection;
use crate::broker::traits::AclDecision;
use crate::packet;
use crate::packet::PublishPacket;
use vstd::prelude::*;

verus! {

/// What the worker does next.
pub enum FanoutStep {
    /// It hands this message on.
    Handle(PublishPacket),
    /// It waits until there is something to do.
    Wait,
    /// It stops.
    Done,
}

pub enum FanoutModel {
    Handle(packet::PublishModel),
    Wait,
    Done,
}

impl View for FanoutStep {
    type V = FanoutModel;

    open spec fn view(&self) -> FanoutModel {
        match *self {
            FanoutStep::Handle(p) => FanoutModel::Handle(p@),
            FanoutStep::Wait => FanoutModel::Wait,
            FanoutStep::Done => FanoutModel::Done,
        }
    }
}

/// What the worker does next, and the connection after it. The oldest message comes
/// first. Without one the worker waits, unless the connection has ended.
pub open spec fn worked(c: server::ServerModel, ended: bool) -> (server::ServerModel, FanoutModel) {
    if c.fanout.len() > 0 {
        (
            server::ServerModel { fanout: c.fanout.drop_first(), ..c },
            FanoutModel::Handle(c.fanout[0]),
        )
    } else if ended {
        (c, FanoutModel::Done)
    } else {
        (c, FanoutModel::Wait)
    }
}

impl ServerConnection {
    /// One turn of the worker; `ended` says whether the connection has ended, so that
    /// nothing more is put in line.
    pub fn fanout_step(&mut self, ended: bool) -> (r: FanoutStep)
        ensures
            (final(self)@, r@) == worked(old(self)@, ended),
    {
        match self.next_fanout() {
            Some(p) => FanoutStep::Handle(p),
            None => if ended {
                FanoutStep::Done
            } else {
                FanoutStep::Wait
            },
        }
    }
}

// ----------------------------------------------------------------------------
// Laws
// ----------------------------------------------------------------------------

/// Something that happens to the line of a connection.
pub enum LineDeed {
    /// The connection takes one turn of its loop.
    Turn {
        before: broker::BrokerModel,
        event: ServerEvent,
        decisions: Seq<AclDecision>,
        after: broker::BrokerModel,
        step: ServerStep,
    },
    /// The worker takes one turn. A message runs through the handlers that it matches,
    /// with these outcomes.
    Worker { ended: bool, step: FanoutModel, outcomes: Seq<ChainOutcome> },
}

pub open spec fn line_does(c: server::ServerModel, d: server::ServerModel, x: LineDeed) -> bool {
    match x {
        LineDeed::Turn { before, event, decisions, after, step } => inbound::steps(
            before,
            c,
            event,
            decisions,
            after,
            d,
            step,
        ),
        LineDeed::Worker { ended, step, .. } => (d, step) == worked(c, ended),
    }
}

/// Whether these deeds lead through these states of a connection.
pub open spec fn line_course(states: Seq<server::ServerModel>, deeds: Seq<LineDeed>) -> bool {
    &&& states.len() == deeds.len() + 1
    &&& forall|i: int|
        0 <= i < deeds.len() ==> line_does(states[i], states[i + 1], #[trigger] deeds[i])
}

/// What the worker handed on, in order.
pub open spec fn handled(deeds: Seq<LineDeed>) -> Seq<packet::PublishModel>
    decreases deeds.len(),
{
    if deeds.len() == 0 {
        Seq::empty()
    } else {
        let front = handled(deeds.drop_last());
        match deeds.last() {
            LineDeed::Worker { step: FanoutModel::Handle(p), .. } => front.push(p),
            _ => front,
        }
    }
}

/// What is left of a message after handlers with these outcomes, one after the other.
pub open spec fn left_by_all(p: packet::PublishModel, outcomes: Seq<ChainOutcome>) -> packet::PublishModel
    decreases outcomes.len(),
{
    if outcomes.len() == 0 {
        p
    } else {
        inbound::left_by(left_by_all(p, outcomes.drop_last()), outcomes.last())
    }
}

/// What goes on to the subscribers of a message and the outcomes of its handlers: the
/// message as they left it, if every one of them lets it go on.
pub open spec fn goes_on(p: packet::PublishModel, outcomes: Seq<ChainOutcome>) -> Option<
    packet::PublishModel,
> {
    if forall|i: int| 0 <= i < outcomes.len() ==> inbound::lets_on(#[trigger] outcomes[i]) {
        Some(left_by_all(p, outcomes))
    } else {
        None
    }
}

/// What the worker published, in order.
pub open spec fn published(deeds: Seq<LineDeed>) -> Seq<packet::PublishModel>
    decreases deeds.len(),
{
    if deeds.len() == 0 {
        Seq::empty()
    } else {
        let front = published(deeds.drop_last());
        match deeds.last() {
            LineDeed::Worker { step: FanoutModel::Handle(p), outcomes, .. } => match goes_on(
                p,
                outcomes,
            ) {
                Some(q) => front.push(q),
                None => front,
            },
            _ => front,
        }
    }
}

/// The outcomes of the handlers of each message that was handed on, in order.
pub open spec fn outcomes_of(deeds: Seq<LineDeed>) -> Seq<Seq<ChainOutcome>>
    decreases deeds.len(),
{
    if deeds.len() == 0 {
        Seq::empty()
    } else {
        let front = outcomes_of(deeds.drop_last());
        match deeds.last() {
            LineDeed::Worker { step: FanoutModel::Handle(p), outcomes, .. } => front.push(outcomes),
            _ => front,
        }
    }
}

/// The messages of a list that go on, in order, each as its handlers left it.
pub open spec fn all_that_go_on(
    messages: Seq<packet::PublishModel>,
    outcomes: Seq<Seq<ChainOutcome>>,
) -> Seq<packet::PublishModel>
    decreases messages.len(),
{
    if messages.len() == 0 || outcomes.len() == 0 {
        Seq::empty()
    } else {
        let front = all_that_go_on(messages.drop_last(), outcomes.drop_last());
        match goes_on(messages.last(), outcomes.last()) {
            Some(q) => front.push(q),
            None => front,
        }
    }
}

/// What was put in line, in order.
pub open spec fn put_in_line(states: Seq<server::ServerModel>, deeds: Seq<LineDeed>) -> Seq<
    packet::PublishModel,
>
    decreases deeds.len(),
{
    if deeds.len() == 0 {
        Seq::empty()
    } else {
        let front = put_in_line(states.drop_last(), deeds.drop_last());
        let before = states[deeds.len() - 1].fanout;
        let after = states[deeds.len() as int].fanout;
        match deeds.last() {
            LineDeed::Turn { .. } => front + after.skip(before.len() as int),
            _ => front,
        }
    }
}

/// A turn of the loop puts messages at the end of the line and takes none out.
proof fn lemma_turn_adds(c: server::ServerModel, d: server::ServerModel, x: LineDeed)
    requires
        x is Turn,
        line_does(c, d, x),
    ensures
        c.fanout.len() <= d.fanout.len(),
        c.fanout + d.fanout.skip(c.fanout.len() as int) == d.fanout,
{
    assert(c.fanout.is_prefix_of(d.fanout));
    assert(c.fanout + d.fanout.skip(c.fanout.len() as int) =~= d.fanout);
}

/// Every message that is put in line is handed on once, in the order of arrival: what
/// was handed on, followed by what is still in line, is what was in line at first,
/// followed by what was put there.
pub proof fn law_handed_on_once_in_order(states: Seq<server::ServerModel>, deeds: Seq<LineDeed>)
    requires
        line_course(states, deeds),
    ensures
        handled(deeds) + states.last().fanout == states[0].fanout + put_in_line(states, deeds),
    decreases deeds.len(),
{
    if deeds.len() == 0 {
        assert(handled(deeds) + states.last().fanout =~= states[0].fanout + put_in_line(
            states,
            deeds,
        ));
    } else {
        let n = deeds.len() as int;
        let front = states.drop_last();
        let done = deeds.drop_last();
        assert forall|i: int| 0 <= i < done.len() implies line_does(
            front[i],
            front[i + 1],
            #[trigger] done[i],
        ) by {
            assert(line_does(states[i], states[i + 1], deeds[i]));
        }
        law_handed_on_once_in_order(front, done);
        let c = states[n - 1];
        let d = states[n];
        assert(line_does(states[n - 1], states[n - 1 + 1], deeds[n - 1]));
        let all = states[0].fanout + put_in_line(front, done);
        assert(handled(done) + c.fanout == all);
        match deeds.last() {
            LineDeed::Turn { .. } => {
                lemma_turn_adds(c, d, deeds.last());
                let new = d.fanout.skip(c.fanout.len() as int);
                assert(handled(done) + d.fanout =~= (handled(done) + c.fanout) + new);
                assert(all + new =~= states[0].fanout + (put_in_line(front, done) + new));
            },
            LineDeed::Worker { ended, step, .. } => {
                if c.fanout.len() > 0 {
                    assert(handled(done).push(c.fanout[0]) + d.fanout =~= handled(done) + c.fanout);
                }
            },
        }
    }
}

/// What is published are the messages that were handed on and that every handler let
/// go on, and no other, once each and in the order in which they were handed on.
pub proof fn law_published_in_order(deeds: Seq<LineDeed>)
    ensures
        outcomes_of(deeds).len() == handled(deeds).len(),
        published(deeds) == all_that_go_on(handled(deeds), outcomes_of(deeds)),
    decreases deeds.len(),
{
    if deeds.len() > 0 {
        let done = deeds.drop_last();
        law_published_in_order(done);
        if let LineDeed::Worker { step: FanoutModel::Handle(p), outcomes, .. } = deeds.last() {
            assert(handled(deeds).drop_last() =~= handled(done));
            assert(outcomes_of(deeds).drop_last() =~= outcomes_of(done));
        }
    }
}

/// Once the connection has ended, the worker hands on what is still in line before it
/// stops: it never waits, and by the time that it stops it has handed on all that was
/// put in line.
pub proof fn law_drained_after_the_end(
    states: Seq<server::ServerModel>,
    deeds: Seq<LineDeed>,
    ended: bool,
    step: FanoutModel,
    outcomes: Seq<ChainOutcome>,
)
    requires
        line_course(states, deeds),
        deeds.len() > 0,
        deeds.last() == (LineDeed::Worker { ended, step, outcomes }),
    ensures
        ended ==> !(step is Wait),
        step is Done ==> ended && states.last().fanout.len() == 0 && handled(deeds)
            == states[0].fanout + put_in_line(states, deeds),
{
    let n = deeds.len() as int;
    assert(line_does(states[n - 1], states[n - 1 + 1], deeds[n - 1]));
    law_handed_on_once_in_order(states, deeds);
    if step is Done {
        assert(handled(deeds) + states.last().fanout =~= handled(deeds));
    }
}

} // verus!
