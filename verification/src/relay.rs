//! A logic that hands messages on, and what a chain of such agents does.
//!
//! A [`Relay`] takes one message from its `input` at each step. It either
//! sends the message on through its `output` or keeps it, and it ends once it
//! has handled the number of messages that it was built for.

use crate::agent::{fresh_channels, fresh_ports, received, sent, Logic, OutputView, PortSet, PortsView};
use crate::module::{lookup, position, Module, PortDecl};
use crate::ports::{ChannelView, Channels, ChannelsView, Endpoint, Msg};
use crate::result::{Error, ErrorView};
use crate::scheduler::{drove, Dispatch, Scheduler, SchedulerView, Signal};
use vstd::pervasive::unreached;
use vstd::prelude::*;

verus! {

/// The state of a relay.
#[derive(Debug)]
pub struct Relay {
    /// How many more messages the relay handles before it ends.
    pub left: usize,
    /// Whether the relay keeps the messages instead of sending them on.
    pub keeps: bool,
    /// The messages that the relay has kept, oldest first.
    pub kept: Vec<Msg>,
}

impl Relay {
    /// A relay that sends `count` messages on and then ends.
    pub fn pass(count: usize) -> (r: Relay)
        ensures
            r.left == count,
            !r.keeps,
            r.kept@.len() == 0,
    {
        Relay { left: count, keeps: false, kept: Vec::new() }
    }

    /// A relay that keeps `count` messages and then ends.
    pub fn keep(count: usize) -> (r: Relay)
        ensures
            r.left == count,
            r.keeps,
            r.kept@.len() == 0,
    {
        Relay { left: count, keeps: true, kept: Vec::new() }
    }

    /// How many messages are left to handle once one more was handled.
    pub open spec fn rest(&self) -> usize {
        if self.left > 0 {
            (self.left - 1) as usize
        } else {
            0
        }
    }

    /// What the relay answers once one more message was handled: it ends
    /// when none is left.
    pub open spec fn answer(&self) -> Signal {
        if self.rest() == 0 {
            Signal::End
        } else {
            Signal::Continue
        }
    }

    /// The relay is as `self` was, with one more message handled and, where
    /// it keeps messages, with `msg` kept.
    pub open spec fn handled(&self, after: Relay, msg: Msg) -> bool {
        &&& after.left == self.rest()
        &&& after.keeps == self.keeps
        &&& after.kept@ == if self.keeps {
            self.kept@.push(msg)
        } else {
            self.kept@
        }
    }
}

impl Logic for Relay {
    /// A step takes the oldest message from `input`. Where there is none,
    /// the step fails and changes nothing. A relay that keeps messages keeps
    /// it; any other sends it on through `output`, and fails, with the
    /// message lost, where that cannot be done.
    open spec fn steps_to(
        &self,
        after: Relay,
        ports: PortsView,
        net: ChannelsView,
        left: ChannelsView,
        outcome: Result<Signal, Error>,
    ) -> bool {
        let got = received(net, ports.input_source("input"@));
        match got.1 {
            Err(e) => after == *self && left == net && outcome.is_err() && outcome.unwrap_err()@
                == e,
            Ok(msg) => if self.keeps {
                left == got.0 && self.handled(after, msg) && outcome == Ok::<Signal, Error>(
                    self.answer(),
                )
            } else {
                let out = sent(got.0, ports.output_target("output"@), msg);
                left == out.0 && match out.1 {
                    Err(e) => after == *self && outcome.is_err() && outcome.unwrap_err()@ == e,
                    Ok(()) => self.handled(after, msg) && outcome == Ok::<Signal, Error>(
                        self.answer(),
                    ),
                }
            },
        }
    }

    fn run(&mut self, ports: &PortSet, net: &mut Channels) -> (r: Result<Signal, Error>) {
        let msg = match ports.recv(net, "input") {
            Ok(msg) => msg,
            Err(e) => { return Err(e); },
        };
        if self.keeps {
            self.kept.push(msg);
        } else {
            match ports.send(net, "output", msg) {
                Ok(()) => {},
                Err(e) => { return Err(e); },
            }
        }
        if self.left > 1 {
            self.left = self.left - 1;
            Ok(Signal::Continue)
        } else {
            self.left = 0;
            Ok(Signal::End)
        }
    }
}

/// The run queue that names agent `id` `count` times.
pub open spec fn entries(id: usize, count: int) -> Seq<usize> {
    Seq::new(
        if count > 0 {
            count as nat
        } else {
            0
        },
        |i: int| id,
    )
}

/// The graph is a chain of three agents: the `output` of the first leads to
/// channel `c1`, which the `input` of the second reads; the `output` of the
/// second leads to channel `c2`, which the `input` of the third reads; the
/// `input` of the first reads channel `c0`. The three channels are different
/// channels of the graph, and a message on `c1` or `c2` wakes its reader.
pub open spec fn is_chain(graph: SchedulerView<Relay>, c0: int, c1: int, c2: int) -> bool {
    &&& graph.comps.len() == 3
    &&& 0 <= c0 < graph.net.chans.len()
    &&& 0 <= c1 < graph.net.chans.len()
    &&& 0 <= c2 < graph.net.chans.len()
    &&& c0 != c1 && c0 != c2 && c1 != c2
    &&& reads(graph.comps[0].ports, c0)
    &&& writes(graph.comps[0].ports, c1)
    &&& reads(graph.comps[1].ports, c1)
    &&& writes(graph.comps[1].ports, c2)
    &&& reads(graph.comps[2].ports, c2)
    &&& graph.net.chans[c1].owner == 1 && graph.net.chans[c1].must_sched
    &&& graph.net.chans[c2].owner == 2 && graph.net.chans[c2].must_sched
    &&& graph.net.notices.len() == 0
}

/// The scalar input `input` of the bundle reads channel `chan`.
pub open spec fn reads(ports: PortsView, chan: int) -> bool {
    ports.inputs.contains_key("input"@) && ports.inputs["input"@].chan == chan
}

/// The scalar output `output` of the bundle leads to channel `chan`.
pub open spec fn writes(ports: PortsView, chan: int) -> bool {
    &&& ports.outputs.contains_key("output"@)
    &&& ports.outputs["output"@].sender.is_some()
    &&& ports.outputs["output"@].sender.unwrap().chan == chan
}

/// The chain has moved the messages `msgs` this far: the first agent has
/// sent `a` of them on, the second `b` and the third has kept `c`. The rest
/// wait in the channels in their order, each agent waits in the run queue
/// once for each message that waits for it, and an agent is retired once
/// it has handled all messages. An agent starts on its messages when the one
/// before it is through with all of them.
pub open spec fn chain_at(
    graph: SchedulerView<Relay>,
    c0: int,
    c1: int,
    c2: int,
    msgs: Seq<Msg>,
    a: int,
    b: int,
    c: int,
) -> bool {
    let n = msgs.len() as int;
    &&& is_chain(graph, c0, c1, c2)
    &&& 0 <= c <= b <= a <= n
    &&& a < n ==> b == 0
    &&& b < n ==> c == 0
    &&& graph.queue == entries(0, n - a) + entries(1, a - b) + entries(2, b - c)
    &&& graph.net.chans[c0].queue == msgs.subrange(a, n)
    &&& graph.net.chans[c1].queue == msgs.subrange(b, a)
    &&& graph.net.chans[c2].queue == msgs.subrange(c, b)
    &&& graph.comps[0].logic.left == n - a
    &&& !graph.comps[0].logic.keeps
    &&& graph.comps[0].retired == (a == n)
    &&& graph.comps[1].logic.left == n - b
    &&& !graph.comps[1].logic.keeps
    &&& graph.comps[1].retired == (b == n)
    &&& graph.comps[2].logic.left == n - c
    &&& graph.comps[2].logic.keeps
    &&& graph.comps[2].logic.kept@ == msgs.subrange(0, c)
    &&& graph.comps[2].retired == (c == n)
}

/// What one step of a relay that sends on does to a graph: the oldest
/// message of the channel `x` that it reads moves to the back of the channel
/// `y` that it writes, and the reader of `y` is woken.
proof fn lemma_pass_turn(
    before: SchedulerView<Relay>,
    after: SchedulerView<Relay>,
    id: usize,
    outcome: Result<Signal, Error>,
    x: int,
    y: int,
)
    requires
        id < before.comps.len(),
        before.step_taken(after, id, outcome),
        !before.comps[id as int].logic.keeps,
        reads(before.comps[id as int].ports, x),
        writes(before.comps[id as int].ports, y),
        0 <= x < before.net.chans.len(),
        0 <= y < before.net.chans.len(),
        x != y,
        before.net.chans[x].queue.len() > 0,
        before.net.chans[y].must_sched,
        before.net.notices.len() == 0,
    ensures
        after.net.chans == before.net.take(x).deliver(y, before.net.chans[x].queue[0]).chans,
        after.queue == before.queue.drop_first().push(before.net.chans[y].owner),
        after.comps[id as int].logic.left == before.comps[id as int].logic.rest(),
        !after.comps[id as int].logic.keeps,
        outcome == Ok::<Signal, Error>(before.comps[id as int].logic.answer()),
{
    let logic = before.comps[id as int].logic;
    let ports = before.comps[id as int].ports;
    let left = before.left_by_step(after);
    let got = received(before.net, ports.input_source("input"@));
    let msg = before.net.chans[x].queue[0];
    assert(ports.input_source("input"@) == Ok::<Endpoint, ErrorView>(ports.inputs["input"@]));
    assert(got.0 == before.net.take(x));
    assert(got.1 == Ok::<Msg, ErrorView>(msg));
    assert(ports.output_target("output"@) == Ok::<Endpoint, ErrorView>(
        ports.outputs["output"@].sender.unwrap(),
    ));
    let out = sent(got.0, ports.output_target("output"@), msg);
    assert(got.0.chans.len() == before.net.chans.len());
    assert(out.0 == got.0.deliver(y, msg));
    assert(left == out.0);
    assert(got.0.chans[y] == before.net.chans[y]);
    assert(left.notices =~= seq![before.net.chans[y].owner]);
    assert(after.queue =~= before.queue.drop_first().push(before.net.chans[y].owner));
}

/// What one step of a relay that keeps does to a graph: the oldest message
/// of the channel `x` that it reads is kept, and nobody is woken.
proof fn lemma_keep_turn(
    before: SchedulerView<Relay>,
    after: SchedulerView<Relay>,
    id: usize,
    outcome: Result<Signal, Error>,
    x: int,
)
    requires
        id < before.comps.len(),
        before.step_taken(after, id, outcome),
        before.comps[id as int].logic.keeps,
        reads(before.comps[id as int].ports, x),
        0 <= x < before.net.chans.len(),
        before.net.chans[x].queue.len() > 0,
        before.net.notices.len() == 0,
    ensures
        after.net.chans == before.net.take(x).chans,
        after.queue == before.queue.drop_first(),
        after.comps[id as int].logic.left == before.comps[id as int].logic.rest(),
        after.comps[id as int].logic.keeps,
        after.comps[id as int].logic.kept@ == before.comps[id as int].logic.kept@.push(
            before.net.chans[x].queue[0],
        ),
        outcome == Ok::<Signal, Error>(before.comps[id as int].logic.answer()),
{
    let ports = before.comps[id as int].ports;
    let left = before.left_by_step(after);
    let got = received(before.net, ports.input_source("input"@));
    let msg = before.net.chans[x].queue[0];
    assert(ports.input_source("input"@) == Ok::<Endpoint, ErrorView>(ports.inputs["input"@]));
    assert(got.0 == before.net.take(x));
    assert(got.1 == Ok::<Msg, ErrorView>(msg));
    assert(left == got.0);
    assert(left.notices =~= Seq::<usize>::empty());
    assert(after.queue =~= before.queue.drop_first());
}

/// One turn of the run loop moves a chain one message further, until all
/// messages are kept; then the run queue is empty.
proof fn lemma_chain_turn(
    before: SchedulerView<Relay>,
    after: SchedulerView<Relay>,
    d: Dispatch,
    c0: int,
    c1: int,
    c2: int,
    msgs: Seq<Msg>,
    a: int,
    b: int,
    c: int,
) -> (next: (int, int, int))
    requires
        chain_at(before, c0, c1, c2, msgs, a, b, c),
        before.stepped(after, d),
        msgs.len() >= 1,
    ensures
        a + b + c == 3 * msgs.len() ==> d == Dispatch::Idle && after == before,
        a + b + c < 3 * msgs.len() ==> d != Dispatch::Idle && chain_at(
            after,
            c0,
            c1,
            c2,
            msgs,
            next.0,
            next.1,
            next.2,
        ) && next.0 + next.1 + next.2 == a + b + c + 1,
{
    let n = msgs.len() as int;
    if a < n {
        assert(before.queue[0] == 0);
        assert(before.live(0));
        let outcome = d->Ran_1;
        assert(d == Dispatch::Ran(0, outcome));
        lemma_pass_turn(before, after, 0, outcome, c0, c1);
        assert(before.net.chans[c0].queue[0] == msgs[a]);
        assert(after.net.chans[c0].queue =~= msgs.subrange(a + 1, n));
        assert(after.net.chans[c1].queue =~= msgs.subrange(0, a + 1));
        assert(after.net.chans[c2].queue =~= msgs.subrange(0, 0));
        assert(after.queue =~= entries(0, n - (a + 1)) + entries(1, a + 1) + entries(2, 0));
        assert(after.comps[1] == before.comps[1]);
        assert(after.comps[2] == before.comps[2]);
        (a + 1, 0, 0)
    } else if b < n {
        assert(before.queue[0] == 1);
        assert(before.live(1));
        let outcome = d->Ran_1;
        assert(d == Dispatch::Ran(1, outcome));
        lemma_pass_turn(before, after, 1, outcome, c1, c2);
        assert(before.net.chans[c1].queue[0] == msgs[b]);
        assert(after.net.chans[c1].queue =~= msgs.subrange(b + 1, n));
        assert(after.net.chans[c2].queue =~= msgs.subrange(0, b + 1));
        assert(after.net.chans[c0].queue =~= msgs.subrange(n, n));
        assert(after.queue =~= entries(0, 0) + entries(1, n - (b + 1)) + entries(2, b + 1));
        assert(after.comps[0] == before.comps[0]);
        assert(after.comps[2] == before.comps[2]);
        (n, b + 1, 0)
    } else if c < n {
        assert(before.queue[0] == 2);
        assert(before.live(2));
        let outcome = d->Ran_1;
        assert(d == Dispatch::Ran(2, outcome));
        lemma_keep_turn(before, after, 2, outcome, c2);
        assert(before.net.chans[c2].queue[0] == msgs[c]);
        assert(after.net.chans[c2].queue =~= msgs.subrange(c + 1, n));
        assert(after.net.chans[c0].queue =~= msgs.subrange(n, n));
        assert(after.net.chans[c1].queue =~= msgs.subrange(n, n));
        assert(after.comps[2].logic.kept@ =~= msgs.subrange(0, c + 1));
        assert(after.queue =~= entries(0, 0) + entries(1, 0) + entries(2, n - (c + 1)));
        assert(after.comps[0] == before.comps[0]);
        assert(after.comps[1] == before.comps[1]);
        (n, n, c + 1)
    } else {
        assert(before.queue.len() == 0);
        (a, b, c)
    }
}

/// After `k` turns that each found an entry, a chain has moved `k` messages
/// by one agent each.
proof fn lemma_chain_run(
    states: Seq<SchedulerView<Relay>>,
    reports: Seq<Dispatch>,
    c0: int,
    c1: int,
    c2: int,
    msgs: Seq<Msg>,
    k: int,
) -> (at: (int, int, int))
    requires
        crate::scheduler::is_run(states, reports),
        forall|j: int| 0 <= j < reports.len() ==> #[trigger] reports[j] != Dispatch::Idle,
        chain_at(states[0], c0, c1, c2, msgs, 0, 0, 0),
        msgs.len() >= 1,
        0 <= k <= reports.len(),
    ensures
        chain_at(states[k], c0, c1, c2, msgs, at.0, at.1, at.2),
        at.0 + at.1 + at.2 == k,
    decreases k,
{
    if k == 0 {
        (0, 0, 0)
    } else {
        let prev = lemma_chain_run(states, reports, c0, c1, c2, msgs, k - 1);
        assert(states[k - 1].stepped(states[k], reports[k - 1]));
        let next = lemma_chain_turn(
            states[k - 1],
            states[k],
            reports[k - 1],
            c0,
            c1,
            c2,
            msgs,
            prev.0,
            prev.1,
            prev.2,
        );
        assert(reports[k - 1] != Dispatch::Idle);
        next
    }
}

/// End-to-end delivery: three relays wired in a chain, the first seeded
/// with the messages `msgs`, each built to handle as many messages as there
/// are. The run loop takes at most one turn for each message and agent.
/// When it has driven the graph until no agent waits, it has taken all of
/// these turns, the third agent has kept exactly `msgs`, in their order,
/// every channel of the chain is empty, and all three agents are retired.
pub proof fn lemma_chain_delivers(
    before: SchedulerView<Relay>,
    after: SchedulerView<Relay>,
    turns: usize,
    states: Seq<SchedulerView<Relay>>,
    reports: Seq<Dispatch>,
    c0: int,
    c1: int,
    c2: int,
    msgs: Seq<Msg>,
)
    requires
        drove(before, after, turns, states, reports),
        msgs.len() >= 1,
        chain_at(before, c0, c1, c2, msgs, 0, 0, 0),
    ensures
        turns <= 3 * msgs.len(),
        after.comps.len() == 3,
        after.queue.len() == 0 ==> {
            &&& turns == 3 * msgs.len()
            &&& after.comps[2].logic.kept@ == msgs
            &&& after.comps[0].retired && after.comps[1].retired && after.comps[2].retired
            &&& after.net.chans[c0].queue.len() == 0
            &&& after.net.chans[c1].queue.len() == 0
            &&& after.net.chans[c2].queue.len() == 0
        },
{
    let n = msgs.len() as int;
    let at = lemma_chain_run(states, reports, c0, c1, c2, msgs, turns as int);
    assert(after.queue.len() == (n - at.0) + (at.0 - at.1) + (at.1 - at.2));
    assert(msgs.subrange(0, n) =~= msgs);
}

/// The module declares what a link of a chain has: one scalar input `input`
/// and one scalar output `output`, both for messages of the schema `any`.
pub open spec fn is_link(module: &Module) -> bool {
    &&& module.inputs@.len() == 1
    &&& module.inputs@[0].name@ == "input"@
    &&& module.inputs@[0].contract@ == "any"@
    &&& module.outputs@.len() == 1
    &&& module.outputs@[0].name@ == "output"@
    &&& module.outputs@[0].contract@ == "any"@
    &&& module.inarr@.len() == 0
    &&& module.outarr@.len() == 0
    &&& module.option.is_none()
    &&& module.accumulator.is_none()
}

/// The declaration of a link of a chain, under the name `name`.
pub fn link(name: &str) -> (module: Module)
    ensures
        is_link(&module),
        module.name@ == name@,
{
    let mut module = Module::new(name);
    module.inputs.push(PortDecl::new("input", "any"));
    module.outputs.push(PortDecl::new("output", "any"));
    module
}

/// The channel that a new link opens.
pub open spec fn link_channel(id: usize) -> ChannelView {
    ChannelView { owner: id, must_sched: true, schema: "any"@, queue: Seq::empty(), latest: None }
}

/// A newly built link reads the one channel that was opened for it, and its
/// output is not connected yet.
proof fn lemma_link(module: &Module, id: usize, base: int)
    requires
        is_link(module),
        0 <= base < usize::MAX,
    ensures
        module.valid(),
        fresh_channels(module, id) == seq![link_channel(id)],
        reads(fresh_ports(module, id, base), base),
        fresh_ports(module, id, base).inputs["input"@].schema == "any"@,
        fresh_ports(module, id, base).senders().contains_key("input"@),
        fresh_ports(module, id, base).senders()["input"@] == fresh_ports(
            module,
            id,
            base,
        ).inputs["input"@],
        fresh_ports(module, id, base).outputs.contains_key("output"@),
        fresh_ports(module, id, base).outputs["output"@] == (OutputView {
            schema: "any"@,
            sender: None,
        }),
        fresh_ports(module, id, base).has_inputs(),
{
    let ports = fresh_ports(module, id, base);
    assert(lookup(module.inputs@, "input"@) == Some("any"@));
    assert(lookup(module.outputs@, "output"@) == Some("any"@));
    let at = position(module.inputs@, "input"@);
    assert(0 <= at < module.inputs@.len() && module.inputs@[at].name@ == "input"@);
    assert(fresh_channels(module, id) =~= seq![link_channel(id)]);
    assert(ports.inputs.contains_key("input"@));
    assert(ports.inputs.dom().contains("input"@));
    assert(lookup(module.inputs@.drop_first(), "option"@).is_none());
    assert(lookup(module.inputs@.drop_first(), "accumulator"@).is_none());
}

/// The graph holds `count` links and nothing else: agent `i` reads channel
/// `i`, which is its own and empty, and no output is connected yet.
spec fn links(graph: SchedulerView<Relay>, count: int) -> bool {
    &&& graph.comps.len() == count
    &&& graph.net.chans.len() == count
    &&& graph.net.notices.len() == 0
    &&& graph.queue.len() == 0
    &&& forall|i: int|
        0 <= i < count ==> {
            &&& #[trigger] graph.net.chans[i] == link_channel(i as usize)
            &&& linked(graph.comps[i].ports, i)
            &&& !graph.comps[i].retired
        }
}

/// The bundle is that of a link which reads channel `chan`.
spec fn linked(ports: PortsView, chan: int) -> bool {
    &&& reads(ports, chan)
    &&& ports.inputs["input"@].schema == "any"@
    &&& ports.senders().contains_key("input"@)
    &&& ports.senders()["input"@] == ports.inputs["input"@]
    &&& ports.outputs.contains_key("output"@)
    &&& ports.outputs["output"@].schema == "any"@
    &&& ports.has_inputs()
}

/// Registering a link adds it behind the links that are there.
proof fn lemma_add_link(graph: SchedulerView<Relay>, name: Seq<char>, module: Module, state: Relay)
    requires
        is_link(&module),
        links(graph, graph.comps.len() as int),
        graph.comps.len() < usize::MAX,
    ensures
        links(graph.added(name, module, state), graph.comps.len() as int + 1),
        graph.added(name, module, state).comps[graph.comps.len() as int].logic == state,
        forall|i: int|
            0 <= i < graph.comps.len() ==> #[trigger] graph.added(name, module, state).comps[i]
                == graph.comps[i],
{
    let count = graph.comps.len() as int;
    let after = graph.added(name, module, state);
    lemma_link(&module, count as usize, count);
    assert forall|i: int| 0 <= i < count + 1 implies {
        &&& #[trigger] after.net.chans[i] == link_channel(i as usize)
        &&& linked(after.comps[i].ports, i)
        &&& !after.comps[i].retired
    } by {
        if i < count {
            assert(after.net.chans[i] == graph.net.chans[i]);
            assert(after.comps[i] == graph.comps[i]);
        } else {
            assert(after.net.chans[i] == fresh_channels(&module, count as usize)[0]);
        }
    }
}

/// Wiring link `a` to link `b` lets the output of `a` lead to the channel
/// that `b` reads, and changes nothing else.
proof fn lemma_wire_links(graph: SchedulerView<Relay>, from: Seq<char>, to: Seq<char>, a: int, b: int)
    requires
        links(graph, graph.comps.len() as int),
        0 <= a < graph.comps.len(),
        0 <= b < graph.comps.len(),
        graph.names.contains_key(from) && graph.names[from] == a,
        graph.names.contains_key(to) && graph.names[to] == b,
    ensures
        graph.wiring_plan(from, "output"@, None, to, "input"@, None) == Ok::<_, ErrorView>(
            (a as usize, b as usize),
        ),
        links(graph.wired(a, "output"@, None, b, "input"@, None), graph.comps.len() as int),
        writes(graph.wired(a, "output"@, None, b, "input"@, None).comps[a].ports, b),
        graph.wired(a, "output"@, None, b, "input"@, None).names == graph.names,
        forall|i: int|
            0 <= i < graph.comps.len() ==> {
                &&& (#[trigger] graph.wired(a, "output"@, None, b, "input"@, None).comps[i]).logic
                    == graph.comps[i].logic
                &&& i != a ==> graph.wired(a, "output"@, None, b, "input"@, None).comps[i]
                    == graph.comps[i]
            },
{
    let after = graph.wired(a, "output"@, None, b, "input"@, None);
    assert(graph.net.chans[a] == link_channel(a as usize));
    assert(graph.net.chans[b] == link_channel(b as usize));
    let end = graph.comps[b].ports.senders()["input"@];
    let ports = graph.comps[a].ports;
    assert(after.comps[a].ports == ports.connect("output"@, end));
    assert(ports.connect("output"@, end).senders() =~= ports.senders());
    assert(ports.connect("output"@, end).inputs.dom() =~= ports.inputs.dom());
    assert forall|i: int| 0 <= i < graph.comps.len() implies {
        &&& #[trigger] after.net.chans[i] == link_channel(i as usize)
        &&& linked(after.comps[i].ports, i)
        &&& !after.comps[i].retired
    } by {
        assert(graph.net.chans[i] == link_channel(i as usize));
        if i != a {
            assert(after.comps[i] == graph.comps[i]);
        }
    }
}

/// The chain `a` → `b` → `c` stands wired, each agent built to handle
/// `count` messages, and the messages `sent` wait before the first agent,
/// which waits in the run queue once for each of them.
spec fn chain_seeded(graph: SchedulerView<Relay>, sent: Seq<Msg>, count: usize) -> bool {
    &&& is_chain(graph, 0, 1, 2)
    &&& graph.queue == entries(0, sent.len() as int)
    &&& graph.net.chans[0].owner == 0 && graph.net.chans[0].must_sched
    &&& graph.net.chans[0].queue == sent
    &&& graph.net.chans[1].queue == Seq::<Msg>::empty()
    &&& graph.net.chans[2].queue == Seq::<Msg>::empty()
    &&& forall|i: int|
        0 <= i < 3 ==> {
            &&& (#[trigger] graph.comps[i]).logic.left == count
            &&& graph.comps[i].logic.keeps == (i == 2)
            &&& graph.comps[i].logic.kept@ == Seq::<Msg>::empty()
            &&& !graph.comps[i].retired
            &&& graph.comps[i].ports.has_inputs()
        }
}

/// One more message sent to the first agent of a chain waits behind those
/// that wait there, and puts the agent on the run queue once more.
proof fn lemma_seed_chain(graph: SchedulerView<Relay>, sent: Seq<Msg>, count: usize, msg: Msg)
    requires
        chain_seeded(graph, sent, count),
    ensures
        chain_seeded(graph.delivered(0, msg), sent.push(msg), count),
{
    let after = graph.delivered(0, msg);
    assert(after.net.chans =~= graph.net.deliver(0, msg).chans);
    assert(after.queue =~= entries(0, sent.len() as int + 1));
    assert(after.net.notices =~= Seq::<usize>::empty());
}

/// Starting a chain puts no agent on the run queue: every agent of it has
/// an input.
proof fn lemma_start_chain(graph: SchedulerView<Relay>, sent: Seq<Msg>, count: usize)
    requires
        chain_seeded(graph, sent, count),
    ensures
        graph.seeds(3) == Seq::<usize>::empty(),
{
    assert(graph.seeds(0) =~= Seq::<usize>::empty());
    assert(graph.comps[0].ports.has_inputs());
    assert(graph.seeds(1) =~= Seq::<usize>::empty());
    assert(graph.comps[1].ports.has_inputs());
    assert(graph.seeds(2) =~= Seq::<usize>::empty());
    assert(graph.comps[2].ports.has_inputs());
    assert(graph.seeds(3) =~= Seq::<usize>::empty());
}

/// The names of the three agents of a chain differ.
proof fn lemma_chain_names()
    ensures
        "a"@ != "b"@,
        "a"@ != "c"@,
        "b"@ != "c"@,
{
    reveal_strlit("a");
    reveal_strlit("b");
    reveal_strlit("c");
    assert("a"@[0] != "b"@[0]);
    assert("a"@[0] != "c"@[0]);
    assert("b"@[0] != "c"@[0]);
}

/// Three links, the first two built to send `count` messages on and the
/// third to keep them, become a chain once the first is wired to the second
/// and the second to the third.
proof fn lemma_chain_ready(graph: SchedulerView<Relay>, count: usize)
    requires
        links(graph, 3),
        graph.names.contains_key("a"@) && graph.names["a"@] == 0,
        graph.names.contains_key("b"@) && graph.names["b"@] == 1,
        graph.names.contains_key("c"@) && graph.names["c"@] == 2,
        forall|i: int|
            0 <= i < 3 ==> {
                &&& (#[trigger] graph.comps[i]).logic.left == count
                &&& graph.comps[i].logic.keeps == (i == 2)
                &&& graph.comps[i].logic.kept@ == Seq::<Msg>::empty()
            },
    ensures
        graph.wiring_plan("a"@, "output"@, None, "b"@, "input"@, None) == Ok::<_, ErrorView>(
            (0usize, 1usize),
        ),
        graph.wired(0, "output"@, None, 1, "input"@, None).wiring_plan(
            "b"@,
            "output"@,
            None,
            "c"@,
            "input"@,
            None,
        ) == Ok::<_, ErrorView>((1usize, 2usize)),
        chain_seeded(
            graph.wired(0, "output"@, None, 1, "input"@, None).wired(
                1,
                "output"@,
                None,
                2,
                "input"@,
                None,
            ),
            Seq::<Msg>::empty(),
            count,
        ),
        graph.wired(0, "output"@, None, 1, "input"@, None).wired(
            1,
            "output"@,
            None,
            2,
            "input"@,
            None,
        ).sender_of("a"@, "input"@).is_ok(),
{
    let wired = graph.wired(0, "output"@, None, 1, "input"@, None);
    let chain = wired.wired(1, "output"@, None, 2, "input"@, None);
    lemma_wire_links(graph, "a"@, "b"@, 0, 1);
    lemma_wire_links(wired, "b"@, "c"@, 1, 2);
    assert(chain.comps[0] == wired.comps[0]);
    assert(chain.net.chans[0] == link_channel(0));
    assert(chain.net.chans[1] == link_channel(1));
    assert(chain.net.chans[2] == link_channel(2));
    assert(linked(chain.comps[0].ports, 0));
    assert(linked(chain.comps[1].ports, 1));
    assert(linked(chain.comps[2].ports, 2));
    assert(is_chain(chain, 0, 1, 2));
    assert(chain.queue =~= entries(0, 0));
    assert forall|i: int| 0 <= i < 3 implies {
        &&& (#[trigger] chain.comps[i]).logic.left == count
        &&& chain.comps[i].logic.keeps == (i == 2)
        &&& chain.comps[i].logic.kept@ == Seq::<Msg>::empty()
        &&& !chain.comps[i].retired
        &&& chain.comps[i].ports.has_inputs()
    } by {
        assert(wired.comps[i].logic == graph.comps[i].logic);
        assert(chain.comps[i].logic == wired.comps[i].logic);
        assert(linked(chain.comps[i].ports, i));
        assert(chain.net.chans[i] == link_channel(i as usize));
    }
}

/// Builds the chain `a` → `b` → `c` of three relays, each for `count`
/// messages, wired `output` to `input`, and hands out the handle that
/// seeds it.
fn build_chain(count: usize) -> (r: (Scheduler<Relay>, crate::ports::MsgSender))
    ensures
        r.0.wf(),
        chain_seeded(r.0@, Seq::<Msg>::empty(), count),
        r.1@.chan == 0,
{
    let mut sched: Scheduler<Relay> = Scheduler::new();
    proof {
        lemma_chain_names();
        sched.lemma_view_wf();
    }
    let first = link("a");
    let pass = Relay::pass(count);
    let ghost g0 = sched@;
    let ghost (m0, l0) = (first, pass);
    proof {
        lemma_link(&first, 0, 0);
    }
    match sched.add_node("a", first, pass) {
        Ok(_) => {},
        Err(_) => unreached(),
    }
    proof {
        lemma_add_link(g0, "a"@, m0, l0);
    }
    let second = link("b");
    let pass = Relay::pass(count);
    let ghost g1 = sched@;
    let ghost (m1, l1) = (second, pass);
    proof {
        lemma_link(&second, 1, 1);
    }
    match sched.add_node("b", second, pass) {
        Ok(_) => {},
        Err(_) => unreached(),
    }
    proof {
        lemma_add_link(g1, "b"@, m1, l1);
        assert(sched@.comps[0] == g1.comps[0]);
    }
    let third = link("c");
    let keep = Relay::keep(count);
    let ghost g2 = sched@;
    let ghost (m2, l2) = (third, keep);
    proof {
        lemma_link(&third, 2, 2);
    }
    match sched.add_node("c", third, keep) {
        Ok(_) => {},
        Err(_) => unreached(),
    }
    let ghost g3 = sched@;
    proof {
        lemma_add_link(g2, "c"@, m2, l2);
        assert(g3.comps[0] == g2.comps[0]);
        assert(g3.comps[1] == g2.comps[1]);
        assert(g3.comps[0].logic.kept@ =~= Seq::<Msg>::empty());
        assert(g3.comps[1].logic.kept@ =~= Seq::<Msg>::empty());
        assert(g3.comps[2].logic.kept@ =~= Seq::<Msg>::empty());
        lemma_chain_ready(g3, count);
    }
    match sched.connect("a", "output", "b", "input") {
        Ok(()) => {},
        Err(_) => unreached(),
    }
    match sched.connect("b", "output", "c", "input") {
        Ok(()) => {},
        Err(_) => unreached(),
    }
    let seed = match sched.get_sender("a", "input") {
        Ok(sender) => sender,
        Err(_) => unreached(),
    };
    (sched, seed)
}

/// Sends the messages `msgs`, in their order, to the first agent of a
/// chain.
fn seed_chain(sched: &mut Scheduler<Relay>, seed: &crate::ports::MsgSender, msgs: Vec<Msg>)
    requires
        old(sched).wf(),
        seed@.chan == 0,
        chain_seeded(old(sched)@, Seq::<Msg>::empty(), msgs@.len() as usize),
    ensures
        final(sched).wf(),
        chain_seeded(final(sched)@, msgs@, msgs@.len() as usize),
{
    let count = msgs.len();
    let mut rest = msgs;
    let mut done: usize = 0;
    proof {
        assert(msgs@.subrange(0, 0) =~= Seq::<Msg>::empty());
        assert(rest@ =~= msgs@.subrange(0, count as int));
    }
    while rest.len() > 0
        invariant
            sched.wf(),
            seed@.chan == 0,
            done + rest.len() == count,
            count == msgs@.len(),
            rest@ == msgs@.subrange(done as int, count as int),
            chain_seeded(sched@, msgs@.subrange(0, done as int), count),
        decreases rest.len(),
    {
        let ghost before = sched@;
        let msg = rest.remove(0);
        let ghost sent = msg;
        match sched.send(seed, msg) {
            Ok(()) => {},
            Err(_) => unreached(),
        }
        proof {
            lemma_seed_chain(before, msgs@.subrange(0, done as int), count, sent);
            assert(msgs@.subrange(0, done as int).push(sent) =~= msgs@.subrange(0, done as int + 1));
            assert(rest@ =~= msgs@.subrange(done as int + 1, count as int));
        }
        done = done + 1;
    }
    proof {
        assert(msgs@.subrange(0, done as int) =~= msgs@);
    }
}

/// What the run loop makes of a chain that was seeded with `msgs`.
proof fn lemma_chain_done(
    begun: SchedulerView<Relay>,
    after: SchedulerView<Relay>,
    turns: usize,
    states: Seq<SchedulerView<Relay>>,
    reports: Seq<Dispatch>,
    msgs: Seq<Msg>,
)
    requires
        chain_seeded(begun, msgs, msgs.len() as usize),
        msgs.len() <= usize::MAX,
        drove(begun, after, turns, states, reports),
    ensures
        after.comps.len() == 3,
        turns <= 3 * msgs.len(),
        after.queue.len() == 0 ==> {
            &&& turns == 3 * msgs.len()
            &&& after.comps[2].logic.kept@ == msgs
            &&& after.comps[0].retired == (msgs.len() > 0)
            &&& after.comps[1].retired == (msgs.len() > 0)
            &&& after.comps[2].retired == (msgs.len() > 0)
        },
{
    if msgs.len() > 0 {
        lemma_chain_begins(begun, msgs, msgs.len() as usize);
        lemma_chain_delivers(begun, after, turns, states, reports, 0, 1, 2, msgs);
    } else {
        assert(begun.queue.len() == 0);
        lemma_nothing_to_do(begun, after, turns, states, reports);
        assert(begun.comps[2].logic.kept@ =~= msgs);
        assert(!begun.comps[0].retired);
        assert(!begun.comps[1].retired);
        assert(!begun.comps[2].retired);
    }
}

/// On an empty run queue the run loop takes no turn and changes nothing.
proof fn lemma_nothing_to_do(
    begun: SchedulerView<Relay>,
    after: SchedulerView<Relay>,
    turns: usize,
    states: Seq<SchedulerView<Relay>>,
    reports: Seq<Dispatch>,
)
    requires
        begun.queue.len() == 0,
        drove(begun, after, turns, states, reports),
    ensures
        turns == 0,
        after == begun,
{
    if turns > 0 {
        assert(states[0].stepped(states[1], reports[0]));
        assert(reports[0] != Dispatch::Idle);
    }
}

/// Builds the chain `a` → `b` → `c` of three relays, wired `output` to
/// `input`, seeds the `input` of `a` with the messages `msgs` in their
/// order, starts the coordinator and runs the graph until no agent waits.
/// Returns the coordinator as the run left it, with the number of turns
/// that the run loop took: one for each message and agent. Then `c` holds
/// exactly `msgs`, in their order, and all three agents are retired.
pub fn run_chain(msgs: Vec<Msg>) -> (r: (Scheduler<Relay>, usize))
    ensures
        r.0.wf(),
        r.0@.comps.len() == 3,
        r.1 <= 3 * msgs@.len(),
        3 * msgs@.len() < usize::MAX ==> r.0@.queue.len() == 0,
        r.0@.queue.len() == 0 ==> {
            &&& r.1 == 3 * msgs@.len()
            &&& r.0@.comps[2].logic.kept@ == msgs@
            &&& r.0@.comps[0].retired == (msgs@.len() > 0)
            &&& r.0@.comps[1].retired == (msgs@.len() > 0)
            &&& r.0@.comps[2].retired == (msgs@.len() > 0)
        },
{
    let (mut sched, seed) = build_chain(msgs.len());
    seed_chain(&mut sched, &seed, msgs);
    let ghost ready = sched@;
    proof {
        lemma_start_chain(ready, msgs@, msgs@.len() as usize);
    }
    sched.start();
    let ghost begun = sched@;
    let turns = sched.join();
    proof {
        assert(begun.queue =~= ready.queue);
        assert(begun == ready);
        let (states, reports) = choose|states: Seq<SchedulerView<Relay>>, reports: Seq<Dispatch>|
            drove(begun, sched@, turns, states, reports);
        lemma_chain_done(begun, sched@, turns, states, reports, msgs@);
    }
    (sched, turns)
}

/// A chain that was seeded with all its messages has moved none yet.
proof fn lemma_chain_begins(graph: SchedulerView<Relay>, msgs: Seq<Msg>, count: usize)
    requires
        chain_seeded(graph, msgs, count),
        count == msgs.len(),
        count > 0,
    ensures
        chain_at(graph, 0, 1, 2, msgs, 0, 0, 0),
{
    assert(graph.queue =~= entries(0, count as int) + entries(1, 0) + entries(2, 0));
    assert(msgs.subrange(0, count as int) =~= msgs);
    assert(msgs.subrange(0, 0) =~= Seq::<Msg>::empty());
    assert(graph.comps[0].logic.left == count);
    assert(graph.comps[1].logic.left == count);
    assert(graph.comps[2].logic.left == count);
}

} // verus!
