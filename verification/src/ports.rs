//! Messages, channels and their handles.
//!
//! Every channel lives in a [`Channels`] fabric and is reached through a
//! cloneable send-handle and a single-owner receive-handle. A channel belongs
//! to one agent; when it was opened with the wake flag, each message that
//! arrives also leaves a notice for the coordinator naming that agent.
//!
//! Channels are unbounded, so a send never waits. Agents run one at a time,
//! so a receive never waits either: a channel that holds nothing says so.

use crate::result::{Error, ErrorView};
use std::collections::VecDeque;
use vstd::prelude::*;

verus! {

/// A message: an opaque payload with an optional routing tag.
#[derive(Debug, PartialEq, Eq)]
pub struct Msg {
    pub action: Option<String>,
    pub payload: Vec<u8>,
}

/// The mathematical form of a [`Msg`].
pub struct MsgView {
    pub action: Option<Seq<char>>,
    pub payload: Seq<u8>,
}

impl View for Msg {
    type V = MsgView;

    open spec fn view(&self) -> MsgView {
        MsgView {
            action: match self.action {
                Some(a) => Some(a@),
                None => None,
            },
            payload: self.payload@,
        }
    }
}

impl Msg {
    /// A message without a routing tag.
    pub fn new(payload: Vec<u8>) -> (m: Msg)
        ensures
            m.action.is_none(),
            m.payload == payload,
    {
        Msg { action: None, payload }
    }

    /// A message that carries the routing tag `action`.
    pub fn with_action(action: &str, payload: Vec<u8>) -> (m: Msg)
        ensures
            m@.action == Some(action@),
            m.payload == payload,
    {
        Msg { action: Some(action.to_owned()), payload }
    }
}

impl Clone for Msg {
    fn clone(&self) -> (m: Msg)
        ensures
            m@ == self@,
    {
        let action = match &self.action {
            Some(a) => Some(a.clone()),
            None => None,
        };
        Msg { action, payload: self.payload.clone() }
    }
}

/// What a handle stands for: the number of its channel and the schema
/// identifier of the messages that the channel carries.
pub struct Endpoint {
    pub chan: usize,
    pub schema: Seq<char>,
}

/// The sending end of a channel. It may be cloned, so that several producers
/// feed one receiver.
#[derive(Debug)]
pub struct MsgSender {
    chan: usize,
    schema: String,
}

/// The receiving end of a channel. It has one owner and cannot be cloned.
#[derive(Debug)]
pub struct MsgReceiver {
    chan: usize,
    schema: String,
}

impl View for MsgSender {
    type V = Endpoint;

    closed spec fn view(&self) -> Endpoint {
        Endpoint { chan: self.chan, schema: self.schema@ }
    }
}

impl View for MsgReceiver {
    type V = Endpoint;

    closed spec fn view(&self) -> Endpoint {
        Endpoint { chan: self.chan, schema: self.schema@ }
    }
}

impl Clone for MsgSender {
    fn clone(&self) -> (s: MsgSender)
        ensures
            s == *self,
    {
        MsgSender { chan: self.chan, schema: self.schema.clone() }
    }
}

impl MsgSender {
    /// The schema identifier of the channel that this handle sends into.
    pub fn schema(&self) -> (s: &String)
        ensures
            s@ == self@.schema,
    {
        &self.schema
    }
}

impl MsgReceiver {
    /// Opens a channel in `net` that belongs to agent `id` and carries
    /// `schema`, and returns its two ends. With `must_sched`, every message
    /// that arrives also leaves a notice for the coordinator.
    pub fn new(net: &mut Channels, id: usize, schema: &str, must_sched: bool) -> (pair: (
        MsgReceiver,
        MsgSender,
    ))
        ensures
            final(net)@ == old(net)@.open(id, schema@, must_sched),
            pair.0@ == (Endpoint { chan: old(net)@.chans.len() as usize, schema: schema@ }),
            pair.1@ == pair.0@,
    {
        let chan = net.chans.len();
        let name = schema.to_owned();
        let recv = MsgReceiver { chan, schema: name.clone() };
        let send = MsgSender { chan, schema: name.clone() };
        net.chans.push(
            Channel { owner: id, must_sched, schema: name, queue: VecDeque::new(), latest: None },
        );
        proof {
            assert(final(net)@.chans =~= old(net)@.open(id, schema@, must_sched).chans);
        }
        (recv, send)
    }

    /// The schema identifier of the channel that this handle reads.
    pub fn schema(&self) -> (s: &String)
        ensures
            s@ == self@.schema,
    {
        &self.schema
    }
}

/// One channel: its owner, its wake flag, its schema, the messages that wait
/// in it, and the last message that was read from it as a setting.
struct Channel {
    owner: usize,
    must_sched: bool,
    schema: String,
    queue: VecDeque<Msg>,
    latest: Option<Msg>,
}

/// The mathematical form of one channel.
pub struct ChannelView {
    pub owner: usize,
    pub must_sched: bool,
    pub schema: Seq<char>,
    pub queue: Seq<Msg>,
    pub latest: Option<Msg>,
}

impl View for Channel {
    type V = ChannelView;

    closed spec fn view(&self) -> ChannelView {
        ChannelView {
            owner: self.owner,
            must_sched: self.must_sched,
            schema: self.schema@,
            queue: self.queue@,
            latest: self.latest,
        }
    }
}

/// The channels of one graph, and the notices that wait for the coordinator.
pub struct Channels {
    chans: Vec<Channel>,
    notices: Vec<usize>,
}

/// The mathematical form of a [`Channels`] fabric.
pub struct ChannelsView {
    /// The channels, by number.
    pub chans: Seq<ChannelView>,
    /// The owners of wake-enabled channels that received a message, oldest
    /// first, since the coordinator last collected them.
    pub notices: Seq<usize>,
}

impl ChannelsView {
    /// The fabric with one more channel, empty, at the end.
    pub open spec fn open(self, owner: usize, schema: Seq<char>, must_sched: bool) -> ChannelsView {
        ChannelsView {
            chans: self.chans.push(
                ChannelView { owner, must_sched, schema, queue: Seq::empty(), latest: None },
            ),
            notices: self.notices,
        }
    }

    /// The fabric after `msg` arrived on channel `chan`: the message waits at
    /// the back of the channel, and a wake-enabled channel leaves a notice.
    pub open spec fn deliver(self, chan: int, msg: Msg) -> ChannelsView
        recommends
            0 <= chan < self.chans.len(),
    {
        let c = self.chans[chan];
        ChannelsView {
            chans: self.chans.update(chan, ChannelView { queue: c.queue.push(msg), ..c }),
            notices: if c.must_sched {
                self.notices.push(c.owner)
            } else {
                self.notices
            },
        }
    }

    /// The fabric after channel `chan` was read as a setting: every waiting
    /// message is consumed and the newest one is kept as the latest setting.
    pub open spec fn settle(self, chan: int) -> ChannelsView
        recommends
            0 <= chan < self.chans.len(),
    {
        let c = self.chans[chan];
        ChannelsView {
            chans: self.chans.update(
                chan,
                ChannelView {
                    queue: Seq::empty(),
                    latest: if c.queue.len() > 0 {
                        Some(c.queue.last())
                    } else {
                        c.latest
                    },
                    ..c
                },
            ),
            notices: self.notices,
        }
    }

    /// The fabric after the coordinator collected the notices.
    pub open spec fn collected(self) -> ChannelsView {
        ChannelsView { chans: self.chans, notices: Seq::empty() }
    }

    /// The fabric after the oldest message of channel `chan` was taken.
    pub open spec fn take(self, chan: int) -> ChannelsView
        recommends
            0 <= chan < self.chans.len(),
            self.chans[chan].queue.len() > 0,
    {
        let c = self.chans[chan];
        ChannelsView {
            chans: self.chans.update(chan, ChannelView { queue: c.queue.drop_first(), ..c }),
            notices: self.notices,
        }
    }
}

impl View for Channels {
    type V = ChannelsView;

    closed spec fn view(&self) -> ChannelsView {
        ChannelsView {
            chans: Seq::new(self.chans.len() as nat, |i: int| self.chans[i]@),
            notices: self.notices@,
        }
    }
}

impl Channels {
    /// A fabric without channels.
    pub fn new() -> (net: Channels)
        ensures
            net@.chans.len() == 0,
            net@.notices.len() == 0,
    {
        Channels { chans: Vec::new(), notices: Vec::new() }
    }

    /// The channels of a fabric can be counted.
    pub proof fn lemma_len_fits(&self)
        ensures
            self@.chans.len() <= usize::MAX,
    {
    }

    /// The number of channels in the fabric.
    pub fn len(&self) -> (n: usize)
        ensures
            n == self@.chans.len(),
    {
        self.chans.len()
    }

    /// Sends `msg` through `sender`. The message is moved to the back of the
    /// channel; it fails only where the handle leads to no channel of this
    /// fabric, and then nothing changes.
    pub fn send(&mut self, sender: &MsgSender, msg: Msg) -> (r: Result<(), Error>)
        ensures
            match r {
                Ok(()) => sender@.chan < old(self)@.chans.len() && final(self)@ == old(self)@.deliver(
                    sender@.chan as int,
                    msg,
                ),
                Err(e) => sender@.chan >= old(self)@.chans.len() && e@ == ErrorView::ChannelClosed
                    && final(self)@ == old(self)@,
            },
    {
        let i = sender.chan;
        if i >= self.chans.len() {
            return Err(Error::ChannelClosed);
        }
        self.chans[i].queue.push_back(msg);
        if self.chans[i].must_sched {
            let owner = self.chans[i].owner;
            self.notices.push(owner);
        }
        proof {
            assert(self@.chans =~= old(self)@.deliver(i as int, msg).chans);
        }
        Ok(())
    }

    /// Takes the oldest message that waits in the receiver's channel.
    pub fn recv(&mut self, receiver: &MsgReceiver) -> (r: Result<Msg, Error>)
        ensures
            match r {
                Ok(m) => {
                    &&& receiver@.chan < old(self)@.chans.len()
                    &&& old(self)@.chans[receiver@.chan as int].queue.len() > 0
                    &&& m == old(self)@.chans[receiver@.chan as int].queue[0]
                    &&& final(self)@ == old(self)@.take(receiver@.chan as int)
                },
                Err(e) => {
                    &&& final(self)@ == old(self)@
                    &&& if receiver@.chan >= old(self)@.chans.len() {
                        e@ == ErrorView::ChannelClosed
                    } else {
                        e@ == ErrorView::ChannelEmpty && old(self)@.chans[receiver@.chan as int].queue.len()
                            == 0
                    }
                },
            },
    {
        let i = receiver.chan;
        if i >= self.chans.len() {
            return Err(Error::ChannelClosed);
        }
        match self.chans[i].queue.pop_front() {
            Some(m) => {
                proof {
                    assert(self@.chans =~= old(self)@.take(i as int).chans);
                }
                Ok(m)
            },
            None => {
                proof {
                    assert(self@.chans =~= old(self)@.chans);
                }
                Err(Error::ChannelEmpty)
            },
        }
    }

    /// The number of messages that wait in the receiver's channel; zero where
    /// the handle leads to no channel.
    pub fn pending(&self, receiver: &MsgReceiver) -> (n: usize)
        ensures
            n == if receiver@.chan < self@.chans.len() {
                self@.chans[receiver@.chan as int].queue.len()
            } else {
                0
            },
    {
        let i = receiver.chan;
        if i >= self.chans.len() {
            0
        } else {
            self.chans[i].queue.len()
        }
    }

    /// Reads the receiver's channel as a setting without waiting: consumes
    /// every message that waits there, keeps the newest as the latest setting,
    /// and returns a copy of the latest setting, if there ever was one.
    pub fn try_recv_option(&mut self, receiver: &MsgReceiver) -> (r: Option<Msg>)
        ensures
            receiver@.chan >= old(self)@.chans.len() ==> r.is_none() && final(self)@ == old(self)@,
            receiver@.chan < old(self)@.chans.len() ==> {
                &&& final(self)@ == old(self)@.settle(receiver@.chan as int)
                &&& match final(self)@.chans[receiver@.chan as int].latest {
                    Some(l) => r.is_some() && r.unwrap()@ == l@,
                    None => r.is_none(),
                }
            },
    {
        let i = receiver.chan;
        if i >= self.chans.len() {
            return None;
        }
        let ghost before = self@;
        let ghost waiting = before.chans[i as int].queue;
        let ghost mut taken: int = 0;
        proof {
            assert(waiting.subrange(0, waiting.len() as int) =~= waiting);
        }
        loop
            invariant
                i < self.chans.len(),
                self@.chans.len() == before.chans.len(),
                self@.notices == before.notices,
                forall|j: int|
                    0 <= j < before.chans.len() && j != i ==> self@.chans[j] == before.chans[j],
                waiting == before.chans[i as int].queue,
                0 <= taken <= waiting.len(),
                self@.chans[i as int] == (ChannelView {
                    queue: waiting.subrange(taken, waiting.len() as int),
                    latest: if taken > 0 {
                        Some(waiting[taken - 1])
                    } else {
                        before.chans[i as int].latest
                    },
                    ..before.chans[i as int]
                }),
            ensures
                self@ == before.settle(i as int),
            decreases waiting.len() - taken,
        {
            match self.chans[i].queue.pop_front() {
                Some(m) => {
                    self.chans[i].latest = Some(m);
                    proof {
                        assert(waiting.subrange(taken, waiting.len() as int).drop_first()
                            =~= waiting.subrange(taken + 1, waiting.len() as int));
                        taken = taken + 1;
                    }
                },
                None => {
                    proof {
                        assert(waiting.subrange(taken, waiting.len() as int).len() == 0);
                        assert(self@.chans[i as int].queue =~= Seq::<Msg>::empty());
                        assert(self@.chans =~= before.settle(i as int).chans);
                    }
                    break ;
                },
            }
        }
        match &self.chans[i].latest {
            Some(m) => Some(m.clone()),
            None => None,
        }
    }

    /// Reads the receiver's channel as a setting, as [`Channels::try_recv_option`]
    /// does, and fails where no setting has ever arrived.
    pub fn recv_option(&mut self, receiver: &MsgReceiver) -> (r: Result<Msg, Error>)
        ensures
            receiver@.chan >= old(self)@.chans.len() ==> final(self)@ == old(self)@ && r.is_err()
                && r.unwrap_err()@ == ErrorView::ChannelClosed,
            receiver@.chan < old(self)@.chans.len() ==> {
                &&& final(self)@ == old(self)@.settle(receiver@.chan as int)
                &&& match final(self)@.chans[receiver@.chan as int].latest {
                    Some(l) => r.is_ok() && r.unwrap()@ == l@,
                    None => r.is_err() && r.unwrap_err()@ == ErrorView::ChannelEmpty,
                }
            },
    {
        if receiver.chan >= self.chans.len() {
            return Err(Error::ChannelClosed);
        }
        match self.try_recv_option(receiver) {
            Some(m) => Ok(m),
            None => Err(Error::ChannelEmpty),
        }
    }

    /// Hands the notices that have gathered to the coordinator, oldest first,
    /// and forgets them.
    pub fn take_notices(&mut self) -> (w: Vec<usize>)
        ensures
            w@ == old(self)@.notices,
            final(self)@ == old(self)@.collected(),
    {
        let mut w: Vec<usize> = Vec::new();
        std::mem::swap(&mut w, &mut self.notices);
        proof {
            assert(self@.chans =~= old(self)@.chans);
            assert(self@.notices =~= Seq::<usize>::empty());
        }
        w
    }
}

/// The fabric after the messages `msgs` arrived on channel `chan`, one after
/// the other.
pub open spec fn deliver_all(net: ChannelsView, chan: int, msgs: Seq<Msg>) -> ChannelsView
    decreases msgs.len(),
{
    if msgs.len() == 0 {
        net
    } else {
        deliver_all(net, chan, msgs.drop_last()).deliver(chan, msgs.last())
    }
}

/// The messages among `sends` that the producer `who` sent, in the order in
/// which it sent them. Each send is a message with the producer that sent it.
pub open spec fn sent_by(sends: Seq<(bool, Msg)>, who: bool) -> Seq<Msg>
    decreases sends.len(),
{
    if sends.len() == 0 {
        Seq::empty()
    } else if sends.last().0 == who {
        sent_by(sends.drop_last(), who).push(sends.last().1)
    } else {
        sent_by(sends.drop_last(), who)
    }
}

/// The messages of `sends` in the order of their arrival.
pub open spec fn arrivals(sends: Seq<(bool, Msg)>) -> Seq<Msg> {
    Seq::new(sends.len(), |i: int| sends[i].1)
}

/// Messages that arrive on a channel wait behind those that were there, in
/// the order in which they arrived, none lost and none doubled; no other
/// channel changes.
pub proof fn lemma_deliver_all(net: ChannelsView, chan: int, msgs: Seq<Msg>)
    requires
        0 <= chan < net.chans.len(),
    ensures
        deliver_all(net, chan, msgs).chans.len() == net.chans.len(),
        deliver_all(net, chan, msgs).chans[chan].queue == net.chans[chan].queue + msgs,
        forall|c: int|
            0 <= c < net.chans.len() && c != chan ==> deliver_all(net, chan, msgs).chans[c]
                == net.chans[c],
    decreases msgs.len(),
{
    if msgs.len() > 0 {
        lemma_deliver_all(net, chan, msgs.drop_last());
        assert(net.chans[chan].queue + msgs =~= (net.chans[chan].queue + msgs.drop_last()).push(
            msgs.last(),
        ));
    } else {
        assert(net.chans[chan].queue + msgs =~= net.chans[chan].queue);
    }
}

/// Fan-in: where two producers send into one empty channel, the receiver
/// finds the messages of both in the order of their arrival: as many as the
/// two sent together, each once. Each message of a producer waits at a place
/// of its own, and an earlier message of a producer waits before a later one
/// of the same producer.
pub proof fn lemma_fan_in(net: ChannelsView, chan: int, sends: Seq<(bool, Msg)>)
    requires
        0 <= chan < net.chans.len(),
        net.chans[chan].queue.len() == 0,
    ensures
        deliver_all(net, chan, arrivals(sends)).chans[chan].queue == arrivals(sends),
        arrivals(sends).len() == sent_by(sends, true).len() + sent_by(sends, false).len(),
        forall|who: bool, i: int|
            0 <= i < sent_by(sends, who).len() ==> {
                &&& 0 <= #[trigger] place_of(sends, who, i) < sends.len()
                &&& sends[place_of(sends, who, i)].0 == who
                &&& arrivals(sends)[place_of(sends, who, i)] == sent_by(sends, who)[i]
            },
        forall|who: bool, i: int, j: int|
            0 <= i < j < sent_by(sends, who).len() ==> #[trigger] place_of(sends, who, i)
                < #[trigger] place_of(sends, who, j),
{
    lemma_deliver_all(net, chan, arrivals(sends));
    assert(net.chans[chan].queue + arrivals(sends) =~= arrivals(sends));
    lemma_sent_by_counts(sends);
    assert forall|who: bool, i: int| 0 <= i < sent_by(sends, who).len() implies {
        &&& 0 <= #[trigger] place_of(sends, who, i) < sends.len()
        &&& sends[place_of(sends, who, i)].0 == who
        &&& arrivals(sends)[place_of(sends, who, i)] == sent_by(sends, who)[i]
    } by {
        let at = lemma_sent_by_place(sends, who, i);
    }
    assert forall|who: bool, i: int, j: int| 0 <= i < j < sent_by(sends, who).len() implies
        #[trigger] place_of(sends, who, i) < #[trigger] place_of(sends, who, j) by {
        lemma_sent_by_order(sends, who, i, j);
    }
}

/// The place among `sends` of the `i`-th message that `who` sent.
pub open spec fn place_of(sends: Seq<(bool, Msg)>, who: bool, i: int) -> int
    decreases sends.len(),
{
    if sends.len() == 0 {
        0
    } else if sends.last().0 == who && i == sent_by(sends.drop_last(), who).len() {
        sends.len() - 1
    } else {
        place_of(sends.drop_last(), who, i)
    }
}

/// Every send belongs to one of the two producers.
proof fn lemma_sent_by_counts(sends: Seq<(bool, Msg)>)
    ensures
        sends.len() == sent_by(sends, true).len() + sent_by(sends, false).len(),
    decreases sends.len(),
{
    if sends.len() > 0 {
        lemma_sent_by_counts(sends.drop_last());
    }
}

/// The `i`-th message of a producer is the send at its place.
proof fn lemma_sent_by_place(sends: Seq<(bool, Msg)>, who: bool, i: int) -> (at: int)
    requires
        0 <= i < sent_by(sends, who).len(),
    ensures
        at == place_of(sends, who, i),
        0 <= at < sends.len(),
        sends[at] == (who, sent_by(sends, who)[i]),
    decreases sends.len(),
{
    if sends.last().0 == who && i == sent_by(sends.drop_last(), who).len() {
        sends.len() - 1
    } else {
        let at = lemma_sent_by_place(sends.drop_last(), who, i);
        assert(sends.drop_last()[at] == sends[at]);
        at
    }
}

/// A producer's earlier message stands before its later one.
proof fn lemma_sent_by_order(sends: Seq<(bool, Msg)>, who: bool, i: int, j: int)
    requires
        0 <= i < j < sent_by(sends, who).len(),
    ensures
        0 <= place_of(sends, who, i) < place_of(sends, who, j) < sends.len(),
    decreases sends.len(),
{
    if sends.last().0 == who && j == sent_by(sends.drop_last(), who).len() {
        let at = lemma_sent_by_place(sends.drop_last(), who, i);
    } else {
        lemma_sent_by_order(sends.drop_last(), who, i, j);
    }
}

} // verus!
