//! The coordinator: the registry of agents, the run queue and the driving loop.
//!
//! The coordinator owns the agents of one graph and the channels between
//! them. It wires ports by the agents' names, checking schemas before any
//! handle is installed, and it runs the agents one step at a time, in the
//! order in which messages woke them. An agent's identity may stand in the
//! run queue any number of times; an entry that names a retired agent is
//! dropped when its turn comes.
//!
//! Steps never overlap: the run loop hands the channels to one agent at a
//! time and collects the notices that the step left before it takes the
//! next entry.

use crate::agent::{
    declare_arrays, fresh_channels, fresh_ports, lemma_add_inarr_element_keeps_types,
    lemma_connect_array_keeps_types, lemma_connect_keeps_types, Agent, ArrayPort, Logic, PortsView,
    ThisAgent,
};
use crate::module::Module;
use crate::ports::{Channels, ChannelsView, Endpoint, Msg, MsgSender};
use crate::result::{Error, ErrorView};
use crate::table::Table;
use std::collections::VecDeque;
use vstd::prelude::*;

verus! {

/// The outcome of one execution step of an agent.
#[derive(Clone, Copy, Debug, PartialEq, Eq, Structural)]
pub enum Signal {
    /// The agent stays live and is run again when it is next woken.
    Continue,
    /// The agent asks to be retired for good.
    End,
}

/// What one turn of the run loop did.
#[derive(Debug, PartialEq, Eq)]
pub enum Dispatch {
    /// The run queue was empty.
    Idle,
    /// The oldest entry of the run queue named no live agent and was dropped.
    Skipped(usize),
    /// The agent that the oldest entry named ran one step, with this outcome.
    Ran(usize, Result<Signal, Error>),
}

/// Whether the outcome of a step retires the agent: every outcome does but
/// [`Signal::Continue`].
pub open spec fn retires(outcome: Result<Signal, Error>) -> bool {
    match outcome {
        Ok(Signal::Continue) => false,
        _ => true,
    }
}

/// The text of an optional key.
pub open spec fn key_view(key: Option<&str>) -> Option<Seq<char>> {
    match key {
        Some(k) => Some(k@),
        None => None,
    }
}

/// One registered agent with what the coordinator keeps about it.
struct Comp<L> {
    module: Module,
    agent: ThisAgent<L>,
    inputs: Table<MsgSender>,
    inputs_array: Table<ArrayPort<MsgSender>>,
    retired: bool,
}

/// The mathematical form of one registered agent.
pub struct CompView<L> {
    /// The declaration that the agent was built from.
    pub module: Module,
    /// The agent's ports and what is installed in them.
    pub ports: PortsView,
    /// The state of the agent's logic.
    pub logic: L,
    /// Whether the agent has been retired.
    pub retired: bool,
}

impl<L> CompView<L> {
    /// The agent has identity `id`, and its ports are those that its module
    /// declares, each handle on the schema of its port.
    pub open spec fn wf(self, id: int) -> bool {
        &&& self.module.valid()
        &&& self.ports.id == id
        &&& self.ports.declared_by(&self.module)
        &&& self.ports.well_typed()
    }
}

impl<L: Logic> View for Comp<L> {
    type V = CompView<L>;

    closed spec fn view(&self) -> CompView<L> {
        CompView {
            module: self.module,
            ports: self.agent.ports(),
            logic: self.agent.logic(),
            retired: self.retired,
        }
    }
}

impl<L: Logic> Comp<L> {
    spec fn inv(&self, id: int) -> bool {
        &&& self.agent.wf()
        &&& self.inputs.wf()
        &&& self.inputs_array.wf()
        &&& forall|a: ArrayPort<MsgSender>| #[trigger]
            self.inputs_array.values().contains(a) ==> a.elements.wf()
        &&& self.inputs@ == self.agent.ports().senders()
        &&& self.inputs_array@ == self.agent.ports().inarr
        &&& self@.wf(id)
    }
}

/// The coordinator of one graph.
pub struct Scheduler<L> {
    comps: Vec<Comp<L>>,
    names: Table<usize>,
    queue: VecDeque<usize>,
    net: Channels,
}

/// The mathematical form of a [`Scheduler`].
pub struct SchedulerView<L> {
    /// The registered agents; an agent's identity is its place here.
    pub comps: Seq<CompView<L>>,
    /// The identity that each name stands for.
    pub names: Map<Seq<char>, usize>,
    /// The run queue: the identities that wait for a step, oldest first.
    pub queue: Seq<usize>,
    /// The channels of the graph.
    pub net: ChannelsView,
}

impl<L: Logic> SchedulerView<L> {
    /// Every agent is sound, every name stands for a registered agent, and
    /// no notice waits to be moved to the run queue.
    pub open spec fn wf(self) -> bool {
        &&& forall|i: int| 0 <= i < self.comps.len() ==> (#[trigger] self.comps[i]).wf(i)
        &&& forall|n: Seq<char>| #[trigger]
            self.names.contains_key(n) ==> self.names[n] < self.comps.len()
        &&& self.net.notices.len() == 0
    }

    /// Agent `id` is registered and has not been retired.
    pub open spec fn live(self, id: usize) -> bool {
        id < self.comps.len() && !self.comps[id as int].retired
    }

    /// The graph after an agent of kind `module` with logic `state` was
    /// registered under `name`: it takes the next identity, its channels are
    /// opened, and the name stands for it from now on.
    pub open spec fn added(self, name: Seq<char>, module: Module, state: L) -> SchedulerView<L> {
        let id = self.comps.len() as usize;
        SchedulerView {
            comps: self.comps.push(
                CompView {
                    module,
                    ports: fresh_ports(&module, id, self.net.chans.len() as int),
                    logic: state,
                    retired: false,
                },
            ),
            names: self.names.insert(name, id),
            queue: self.queue,
            net: ChannelsView {
                chans: self.net.chans + fresh_channels(&module, id),
                notices: self.net.notices,
            },
        }
    }

    /// The graph with the ports of agent `id` replaced by `ports`.
    pub open spec fn rewired(self, id: int, ports: PortsView) -> SchedulerView<L>
        recommends
            0 <= id < self.comps.len(),
    {
        SchedulerView { comps: self.comps.update(id, CompView { ports, ..self.comps[id] }), ..self }
    }

    /// The send-handle that the coordinator hands out for `port` of the
    /// agent named `node`.
    pub open spec fn sender_of(self, node: Seq<char>, port: Seq<char>) -> Result<
        Endpoint,
        ErrorView,
    > {
        if !self.names.contains_key(node) {
            Err(ErrorView::AgentNotFound(node))
        } else if !self.comps[self.names[node] as int].ports.senders().contains_key(port) {
            Err(ErrorView::PortNotFound(port))
        } else {
            Ok(self.comps[self.names[node] as int].ports.senders()[port])
        }
    }

    /// The consumer side of a wiring: the identity of the agent named `node`
    /// and the schema of its scalar input `port` or, where `element` names a
    /// key, of its array input `port`.
    pub open spec fn consumer(
        self,
        node: Seq<char>,
        port: Seq<char>,
        element: Option<Seq<char>>,
    ) -> Result<(usize, Seq<char>), ErrorView> {
        if !self.names.contains_key(node) {
            Err(ErrorView::AgentNotFound(node))
        } else {
            let id = self.names[node];
            let ports = self.comps[id as int].ports;
            match element {
                None => if ports.senders().contains_key(port) {
                    Ok((id, ports.senders()[port].schema))
                } else {
                    Err(ErrorView::PortNotFound(port))
                },
                Some(_) => if ports.inarr.contains_key(port) {
                    Ok((id, ports.inarr[port].schema))
                } else {
                    Err(ErrorView::PortNotFound(port))
                },
            }
        }
    }

    /// The producer side of a wiring: the identity of the agent named `node`
    /// and the schema of its scalar output `port` or, where `element` names a
    /// key, of its array output `port`.
    pub open spec fn producer(
        self,
        node: Seq<char>,
        port: Seq<char>,
        element: Option<Seq<char>>,
    ) -> Result<(usize, Seq<char>), ErrorView> {
        if !self.names.contains_key(node) {
            Err(ErrorView::AgentNotFound(node))
        } else {
            let id = self.names[node];
            let ports = self.comps[id as int].ports;
            match element {
                None => if ports.outputs.contains_key(port) {
                    Ok((id, ports.outputs[port].schema))
                } else {
                    Err(ErrorView::PortNotFound(port))
                },
                Some(_) => if ports.outarr.contains_key(port) {
                    Ok((id, ports.outarr[port].schema))
                } else {
                    Err(ErrorView::PortNotFound(port))
                },
            }
        }
    }

    /// Whether a wiring can be made, and between which two agents: the
    /// consumer's port is looked up first, then the producer's, then their
    /// schemas are compared.
    pub open spec fn wiring_plan(
        self,
        from: Seq<char>,
        from_port: Seq<char>,
        from_element: Option<Seq<char>>,
        to: Seq<char>,
        to_port: Seq<char>,
        to_element: Option<Seq<char>>,
    ) -> Result<(usize, usize), ErrorView> {
        match self.consumer(to, to_port, to_element) {
            Err(e) => Err(e),
            Ok((b, schema_in)) => match self.producer(from, from_port, from_element) {
                Err(e) => Err(e),
                Ok((a, schema_out)) => if schema_out == schema_in {
                    Ok((a, b))
                } else {
                    Err(ErrorView::SchemaMismatch(schema_out, schema_in))
                },
            },
        }
    }

    /// The graph in which the array input `port` of agent `b` has the element
    /// `element`: as it is where the element is there already, and else with
    /// a new wake-enabled channel that the element reads.
    pub open spec fn with_element(self, b: int, port: Seq<char>, element: Seq<char>) -> SchedulerView<
        L,
    >
        recommends
            0 <= b < self.comps.len(),
            self.comps[b].ports.inarr.contains_key(port),
    {
        let ports = self.comps[b].ports;
        if ports.inarr[port].elements.contains_key(element) {
            self
        } else {
            let schema = ports.inarr[port].schema;
            let end = Endpoint { chan: self.net.chans.len() as usize, schema };
            SchedulerView {
                comps: self.comps.update(
                    b,
                    CompView { ports: ports.add_inarr_element(port, element, end), ..self.comps[b] },
                ),
                net: self.net.open(b as usize, schema, true),
                ..self
            }
        }
    }

    /// The graph after the producer's port was wired to the consumer's: the
    /// consumer's array element exists, and the producer's port holds a
    /// handle into the channel that the consumer's port reads.
    pub open spec fn wired(
        self,
        a: int,
        from_port: Seq<char>,
        from_element: Option<Seq<char>>,
        b: int,
        to_port: Seq<char>,
        to_element: Option<Seq<char>>,
    ) -> SchedulerView<L> {
        let ready = match to_element {
            None => self,
            Some(k) => self.with_element(b, to_port, k),
        };
        let end = match to_element {
            None => ready.comps[b].ports.senders()[to_port],
            Some(k) => ready.comps[b].ports.inarr[to_port].elements[k],
        };
        let ports = ready.comps[a].ports;
        ready.rewired(
            a,
            match from_element {
                None => ports.connect(from_port, end),
                Some(k) => ports.connect_array(from_port, k, end),
            },
        )
    }

    /// The outcome `r` of a wiring and the graph `after` it are what the
    /// wiring protocol asks for: where the plan fails, its error is returned
    /// and the graph is as before; where it holds, the graph is wired.
    pub open spec fn wiring_done(
        self,
        after: SchedulerView<L>,
        r: Result<(), Error>,
        from: Seq<char>,
        from_port: Seq<char>,
        from_element: Option<Seq<char>>,
        to: Seq<char>,
        to_port: Seq<char>,
        to_element: Option<Seq<char>>,
    ) -> bool {
        match self.wiring_plan(from, from_port, from_element, to, to_port, to_element) {
            Ok((a, b)) => r.is_ok() && after == self.wired(
                a as int,
                from_port,
                from_element,
                b as int,
                to_port,
                to_element,
            ),
            Err(e) => r.is_err() && r.unwrap_err()@ == e && after == self,
        }
    }

    /// The agents among the first `n` that are live and declare no input, in
    /// the order of their identities. No message can wake such an agent.
    pub open spec fn seeds(self, n: int) -> Seq<usize>
        decreases n,
    {
        if n <= 0 {
            Seq::empty()
        } else {
            let id = (n - 1) as usize;
            if self.live(id) && !self.comps[n - 1].ports.has_inputs() {
                self.seeds(n - 1).push(id)
            } else {
                self.seeds(n - 1)
            }
        }
    }

    /// What the graph `after` any number of steps keeps of the graph before
    /// them: the same names, the same agents with their modules and ports,
    /// and every retired agent retired, with its logic untouched.
    pub open spec fn evolved(self, after: SchedulerView<L>) -> bool {
        &&& after.names == self.names
        &&& after.comps.len() == self.comps.len()
        &&& forall|i: int|
            0 <= i < self.comps.len() ==> {
                &&& (#[trigger] after.comps[i]).module == self.comps[i].module
                &&& after.comps[i].ports == self.comps[i].ports
                &&& self.comps[i].retired ==> after.comps[i] == self.comps[i]
            }
    }

    /// The channels as the step of a turn left them, before the coordinator
    /// collected the notices: the channels of `after`, with the notices that
    /// stand in the queue of `after` behind the entries that waited already.
    pub open spec fn left_by_step(self, after: SchedulerView<L>) -> ChannelsView {
        ChannelsView {
            chans: after.net.chans,
            notices: after.queue.subrange(self.queue.len() - 1, after.queue.len() as int),
        }
    }

    /// Agent `id` took one step that ended with `outcome` and led from this
    /// graph to `after`: the step was one of the agent's logic, taken on the
    /// agent's own ports and on the channels of this graph; and the notices
    /// that the step left were moved, in their order, to the back of the run
    /// queue, behind the entries that waited already.
    pub open spec fn step_taken(
        self,
        after: SchedulerView<L>,
        id: usize,
        outcome: Result<Signal, Error>,
    ) -> bool {
        &&& self.comps[id as int].logic.steps_to(
            after.comps[id as int].logic,
            self.comps[id as int].ports,
            self.net,
            self.left_by_step(after),
            outcome,
        )
        &&& after.queue == self.queue.drop_first() + self.left_by_step(after).notices
        &&& after.net.notices.len() == 0
    }

    /// One turn of the run loop leads from this graph to `after` with the
    /// report `d`. An empty queue changes nothing. An entry that names no
    /// live agent is dropped and nothing else changes. A live agent runs one
    /// step of its logic on its own ports and the channels of the graph: it
    /// is retired exactly when the outcome asks for it, its ports and every
    /// other agent stay as they are, and the agents that the step woke join
    /// the queue behind those that waited already.
    pub open spec fn stepped(self, after: SchedulerView<L>, d: Dispatch) -> bool {
        match d {
            Dispatch::Idle => self.queue.len() == 0 && after == self,
            Dispatch::Skipped(id) => {
                &&& self.queue.len() > 0
                &&& self.queue[0] == id
                &&& !self.live(id)
                &&& after == SchedulerView { queue: self.queue.drop_first(), ..self }
            },
            Dispatch::Ran(id, outcome) => {
                &&& self.queue.len() > 0
                &&& self.queue[0] == id
                &&& self.live(id)
                &&& after.names == self.names
                &&& after.comps.len() == self.comps.len()
                &&& forall|i: int|
                    0 <= i < self.comps.len() && i != id ==> #[trigger] after.comps[i]
                        == self.comps[i]
                &&& after.comps[id as int].module == self.comps[id as int].module
                &&& after.comps[id as int].ports == self.comps[id as int].ports
                &&& after.comps[id as int].retired == retires(outcome)
                &&& self.step_taken(after, id, outcome)
            },
        }
    }

    /// The graph after a message was sent through a handle that leads to
    /// channel `chan`: the message waits in the channel, and the owner of a
    /// wake-enabled channel joins the run queue.
    pub open spec fn delivered(self, chan: int, msg: Msg) -> SchedulerView<L>
        recommends
            0 <= chan < self.net.chans.len(),
    {
        SchedulerView {
            queue: self.queue + self.net.deliver(chan, msg).notices,
            net: self.net.deliver(chan, msg).collected(),
            ..self
        }
    }
}

impl<L: Logic> View for Scheduler<L> {
    type V = SchedulerView<L>;

    closed spec fn view(&self) -> SchedulerView<L> {
        SchedulerView {
            comps: Seq::new(self.comps.len() as nat, |i: int| self.comps[i]@),
            names: self.names@,
            queue: self.queue@,
            net: self.net@,
        }
    }
}

impl<L: Logic> Scheduler<L> {
    /// All that makes the coordinator sound but for notices that may still
    /// wait in the fabric.
    spec fn inv(&self) -> bool {
        &&& self.names.wf()
        &&& forall|i: int| 0 <= i < self.comps.len() ==> (#[trigger] self.comps[i]).inv(i)
        &&& forall|n: Seq<char>| #[trigger]
            self.names@.contains_key(n) ==> self.names@[n] < self.comps.len()
    }

    /// The coordinator is sound.
    pub closed spec fn wf(&self) -> bool {
        self.inv() && self.net@.notices.len() == 0
    }

    /// A sound coordinator has a sound mathematical form, with channels that
    /// can be counted.
    pub proof fn lemma_view_wf(&self)
        requires
            self.wf(),
        ensures
            self@.wf(),
            self@.net.chans.len() <= usize::MAX,
    {
        self.net.lemma_len_fits();
        assert forall|i: int| 0 <= i < self@.comps.len() implies (#[trigger] self@.comps[i]).wf(
            i,
        ) by {
            assert(self.comps[i].inv(i));
        }
    }

    /// A coordinator without agents.
    pub fn new() -> (s: Scheduler<L>)
        ensures
            s.wf(),
            s@.comps.len() == 0,
            s@.names == Map::<Seq<char>, usize>::empty(),
            s@.queue.len() == 0,
            s@.net.chans.len() == 0,
    {
        Scheduler { comps: Vec::new(), names: Table::new(), queue: VecDeque::new(), net: Channels::new() }
    }

    /// Registers an agent of kind `module` with logic `state` under `name`
    /// and returns its identity. A later registration under the same name
    /// takes the name over. A declaration that is not valid is refused, and
    /// then the graph is as before.
    pub fn add_node(&mut self, name: &str, module: Module, state: L) -> (r: Result<usize, Error>)
        requires
            old(self).wf(),
        ensures
            final(self).wf(),
            match r {
                Ok(id) => module.valid() && id == old(self)@.comps.len() && final(self)@ == old(
                    self,
                )@.added(name@, module, state),
                Err(e) => !module.valid() && e@ == ErrorView::ModuleLoadFailure(module.name@)
                    && final(self)@ == old(self)@,
            },
    {
        let id = self.comps.len();
        match ThisAgent::new(&module, id, &mut self.net, state) {
            Ok((agent, inputs)) => {
                let inputs_array = declare_arrays::<MsgSender>(&module.inarr);
                let comp = Comp { module, agent, inputs, inputs_array, retired: false };
                proof {
                    assert(comp.inv(id as int));
                }
                self.comps.push(comp);
                self.names.insert(name.to_owned(), id);
                proof {
                    assert forall|i: int| 0 <= i < self.comps.len() implies (
                    #[trigger] self.comps[i]).inv(i) by {
                        if i < id {
                            assert(self.comps[i] == old(self).comps[i]);
                        }
                    }
                    assert(self@.comps =~= old(self)@.added(name@, module, state).comps);
                    assert(self@.net == old(self)@.added(name@, module, state).net);
                }
                Ok(id)
            },
            Err(e) => {
                proof {
                    assert(self@.comps =~= old(self)@.comps);
                }
                Err(e)
            },
        }
    }

    /// The identity that `name` stands for.
    fn find(&self, name: &str) -> (r: Option<usize>)
        requires
            self.inv(),
        ensures
            match r {
                Some(id) => self@.names.contains_key(name@) && self@.names[name@] == id && id
                    < self.comps.len(),
                None => !self@.names.contains_key(name@),
            },
    {
        match self.names.get(name) {
            Some(id) => Some(*id),
            None => None,
        }
    }

    /// The number of registered agents.
    pub fn len(&self) -> (n: usize)
        ensures
            n == self@.comps.len(),
    {
        self.comps.len()
    }

    /// The number of channels in the graph.
    pub fn channels(&self) -> (n: usize)
        ensures
            n == self@.net.chans.len(),
    {
        self.net.len()
    }

    /// The run queue, oldest entry first.
    pub fn pending(&self) -> (q: Vec<usize>)
        ensures
            q@ == self@.queue,
    {
        let mut q: Vec<usize> = Vec::new();
        let mut i: usize = 0;
        while i < self.queue.len()
            invariant
                i <= self.queue.len(),
                q@ == self.queue@.take(i as int),
            decreases self.queue.len() - i,
        {
            q.push(self.queue[i]);
            proof {
                assert(q@ =~= self.queue@.take(i as int + 1));
            }
            i += 1;
        }
        proof {
            assert(self.queue@.take(i as int) =~= self.queue@);
        }
        q
    }

    /// The agent that is registered under `name`.
    pub fn agent(&self, name: &str) -> (r: Result<&ThisAgent<L>, Error>)
        requires
            self.wf(),
        ensures
            match r {
                Ok(agent) => {
                    &&& self@.names.contains_key(name@)
                    &&& agent.wf()
                    &&& agent.ports() == self@.comps[self@.names[name@] as int].ports
                    &&& agent.logic() == self@.comps[self@.names[name@] as int].logic
                },
                Err(e) => !self@.names.contains_key(name@) && e@ == ErrorView::AgentNotFound(name@),
            },
    {
        match self.find(name) {
            Some(id) => {
                proof {
                    assert(self.comps[id as int].inv(id as int));
                }
                Ok(&self.comps[id].agent)
            },
            None => Err(Error::AgentNotFound(name.to_owned())),
        }
    }

    /// Whether the agent that is registered under `name` has been retired.
    pub fn is_retired(&self, name: &str) -> (r: Result<bool, Error>)
        requires
            self.wf(),
        ensures
            match r {
                Ok(b) => self@.names.contains_key(name@) && b
                    == self@.comps[self@.names[name@] as int].retired,
                Err(e) => !self@.names.contains_key(name@) && e@ == ErrorView::AgentNotFound(name@),
            },
    {
        match self.find(name) {
            Some(id) => Ok(self.comps[id].retired),
            None => Err(Error::AgentNotFound(name.to_owned())),
        }
    }

    /// The identity of the agent that is registered under `name`.
    pub fn id_of(&self, name: &str) -> (r: Result<usize, Error>)
        requires
            self.wf(),
        ensures
            match r {
                Ok(id) => self@.names.contains_key(name@) && self@.names[name@] == id,
                Err(e) => !self@.names.contains_key(name@) && e@ == ErrorView::AgentNotFound(name@),
            },
    {
        match self.find(name) {
            Some(id) => Ok(id),
            None => Err(Error::AgentNotFound(name.to_owned())),
        }
    }

    /// A send-handle for `port` of the agent named `node`: one of its scalar
    /// inputs, its configuration port `option` or its aggregation port
    /// `accumulator`. Code outside the graph seeds it through such a handle.
    pub fn get_sender(&self, node: &str, port: &str) -> (r: Result<MsgSender, Error>)
        requires
            self.wf(),
        ensures
            match (r, self@.sender_of(node@, port@)) {
                (Ok(s), Ok(end)) => s@ == end,
                (Err(e), Err(f)) => e@ == f,
                _ => false,
            },
    {
        match self.find(node) {
            Some(id) => {
                assert(self.comps[id as int].inv(id as int));
                match self.comps[id].inputs.get(port) {
                    Some(held) => self.comps[id].module.clone_input(port, held),
                    None => Err(Error::PortNotFound(port.to_owned())),
                }
            },
            None => Err(Error::AgentNotFound(node.to_owned())),
        }
    }

    /// Moves the notices that wait in the fabric to the back of the run
    /// queue, oldest first.
    fn gather(&mut self)
        requires
            old(self).inv(),
        ensures
            final(self).wf(),
            final(self)@.comps == old(self)@.comps,
            final(self)@.names == old(self)@.names,
            final(self)@.queue == old(self)@.queue + old(self)@.net.notices,
            final(self)@.net == old(self)@.net.collected(),
    {
        let notices = self.net.take_notices();
        let mut i: usize = 0;
        while i < notices.len()
            invariant
                i <= notices.len(),
                notices@ == old(self)@.net.notices,
                self.comps == old(self).comps,
                self.names == old(self).names,
                self.net@ == old(self)@.net.collected(),
                self.queue@ == old(self)@.queue + notices@.take(i as int),
            decreases notices.len() - i,
        {
            self.queue.push_back(notices[i]);
            proof {
                assert(notices@.take(i as int).push(notices@[i as int]) =~= notices@.take(
                    i as int + 1,
                ));
                assert(self.queue@ =~= old(self)@.queue + notices@.take(i as int + 1));
            }
            i += 1;
        }
        proof {
            assert(notices@.take(i as int) =~= notices@);
            assert(self@.comps =~= old(self)@.comps);
        }
    }

    /// Sends `msg` into the graph through `sender`. The message waits in its
    /// channel, and the owner of a wake-enabled channel joins the run queue.
    /// The send fails only where the handle leads to no channel of this
    /// graph, and then nothing changes.
    pub fn send(&mut self, sender: &MsgSender, msg: Msg) -> (r: Result<(), Error>)
        requires
            old(self).wf(),
        ensures
            final(self).wf(),
            match r {
                Ok(()) => sender@.chan < old(self)@.net.chans.len() && final(self)@ == old(
                    self,
                )@.delivered(sender@.chan as int, msg),
                Err(e) => sender@.chan >= old(self)@.net.chans.len() && e@
                    == ErrorView::ChannelClosed && final(self)@ == old(self)@,
            },
    {
        match self.net.send(sender, msg) {
            Ok(()) => {
                proof {
                    assert(self@.comps =~= old(self)@.comps);
                }
                self.gather();
                Ok(())
            },
            Err(e) => {
                proof {
                    assert(self@.comps =~= old(self)@.comps);
                }
                Err(e)
            },
        }
    }

    /// Puts the agent named `node` at the back of the run queue, so that it
    /// is run without a message having woken it.
    pub fn schedule(&mut self, node: &str) -> (r: Result<(), Error>)
        requires
            old(self).wf(),
        ensures
            final(self).wf(),
            match r {
                Ok(()) => old(self)@.names.contains_key(node@) && final(self)@ == (SchedulerView {
                    queue: old(self)@.queue.push(old(self)@.names[node@]),
                    ..old(self)@
                }),
                Err(e) => !old(self)@.names.contains_key(node@) && e@ == ErrorView::AgentNotFound(
                    node@,
                ) && final(self)@ == old(self)@,
            },
    {
        match self.find(node) {
            Some(id) => {
                self.queue.push_back(id);
                proof {
                    assert(self@.comps =~= old(self)@.comps);
                }
                Ok(())
            },
            None => Err(Error::AgentNotFound(node.to_owned())),
        }
    }

    /// A send-handle into the element `element` of the array input `port` of
    /// agent `b`. Where the element is missing, its channel is opened and its
    /// receiving end installed in the agent first.
    fn array_sender(&mut self, b: usize, port: &str, element: &str) -> (r: Result<MsgSender, Error>)
        requires
            old(self).wf(),
            b < old(self)@.comps.len(),
            old(self)@.comps[b as int].ports.inarr.contains_key(port@),
        ensures
            final(self).wf(),
            final(self)@ == old(self)@.with_element(b as int, port@, element@),
            r.is_ok(),
            final(self)@.comps[b as int].ports.inarr[port@].elements.contains_key(element@),
            r.unwrap()@ == final(self)@.comps[b as int].ports.inarr[port@].elements[element@],
            r.unwrap()@.schema == old(self)@.comps[b as int].ports.inarr[port@].schema,
    {
        proof {
            assert(self.comps[b as int].inv(b as int));
        }
        match self.comps[b].inputs_array.get(port) {
            Some(arr) => match arr.elements.get(element) {
                Some(held) => {
                    proof {
                        let ports = self.comps[b as int].agent.ports();
                        assert(ports.inarr[port@].elements.contains_key(element@));
                        assert(ports.inarr.contains_key(port@));
                    }
                    return self.comps[b].module.clone_input_array(port, held);
                },
                None => {},
            },
            None => {},
        }
        let ghost before = self.comps[b as int];
        let ghost ports = before.agent.ports();
        let ghost schema = ports.inarr[port@].schema;
        let ghost end = Endpoint { chan: old(self)@.net.chans.len() as usize, schema };
        let (recv, send) = match self.comps[b].module.create_input_array(port, b, &mut self.net, true) {
            Ok(pair) => pair,
            Err(e) => { return Err(e); },
        };
        match self.comps[b].agent.add_inarr_element(port, element.to_owned(), recv) {
            Ok(()) => {},
            Err(e) => { return Err(e); },
        }
        match self.comps[b].inputs_array.remove(port) {
            Some(mut arr) => {
                arr.elements.insert(element.to_owned(), send.clone());
                self.comps[b].inputs_array.insert(port.to_owned(), arr);
            },
            None => {},
        }
        proof {
            let after = self.comps[b as int];
            lemma_add_inarr_element_keeps_types(ports, &before.module, port@, element@, end);
            assert(after.agent.ports() == ports.add_inarr_element(port@, element@, end));
            assert(after.inputs_array@ =~= after.agent.ports().inarr);
            assert(after.inv(b as int));
            assert forall|i: int| 0 <= i < self.comps.len() implies (#[trigger] self.comps[i]).inv(
                i,
            ) by {
                if i != b {
                    assert(self.comps[i] == old(self).comps[i]);
                }
            }
            assert(self@.comps =~= old(self)@.with_element(b as int, port@, element@).comps);
        }
        Ok(send)
    }

    /// Wires a port of the agent `comp_out` to a port of the agent `comp_in`.
    /// A key in `element_out` or `element_in` makes the port on that side an
    /// array port. Schemas are checked before any handle is installed.
    fn wire(
        &mut self,
        comp_out: &str,
        port_out: &str,
        element_out: Option<&str>,
        comp_in: &str,
        port_in: &str,
        element_in: Option<&str>,
    ) -> (r: Result<(), Error>)
        requires
            old(self).wf(),
        ensures
            final(self).wf(),
            old(self)@.wiring_done(
                final(self)@,
                r,
                comp_out@,
                port_out@,
                key_view(element_out),
                comp_in@,
                port_in@,
                key_view(element_in),
            ),
    {
        let b = match self.find(comp_in) {
            Some(b) => b,
            None => { return Err(Error::AgentNotFound(comp_in.to_owned())); },
        };
        proof {
            assert(self.comps[b as int].inv(b as int));
        }
        let found_in = match element_in {
            None => self.comps[b].module.get_schema_input(port_in),
            Some(_) => self.comps[b].module.get_schema_input_array(port_in),
        };
        let schema_in = match found_in {
            Ok(schema) => schema,
            Err(e) => { return Err(e); },
        };
        let a = match self.find(comp_out) {
            Some(a) => a,
            None => { return Err(Error::AgentNotFound(comp_out.to_owned())); },
        };
        proof {
            assert(self.comps[a as int].inv(a as int));
        }
        let found_out = match element_out {
            None => self.comps[a].module.get_schema_output(port_out),
            Some(_) => self.comps[a].module.get_schema_output_array(port_out),
        };
        let schema_out = match found_out {
            Ok(schema) => schema,
            Err(e) => { return Err(e); },
        };
        if !(schema_out == schema_in) {
            return Err(Error::SchemaMismatch(schema_out, schema_in));
        }
        let sender = match element_in {
            None => match self.comps[b].inputs.get(port_in) {
                Some(held) => match self.comps[b].module.clone_input(port_in, held) {
                    Ok(sender) => sender,
                    Err(e) => { return Err(e); },
                },
                None => { return Err(Error::PortNotFound(port_in.to_owned())); },
            },
            Some(element) => match self.array_sender(b, port_in, element) {
                Ok(sender) => sender,
                Err(e) => { return Err(e); },
            },
        };
        let ghost ready = self@;
        let ghost mid = *self;
        let ghost before = self.comps[a as int];
        proof {
            assert(self.comps[a as int].inv(a as int));
            assert(ready.comps[a as int].ports == before.agent.ports());
            assert(ready.comps[a as int].module == old(self)@.comps[a as int].module);
        }
        let r = match element_out {
            None => {
                proof {
                    lemma_connect_keeps_types(before.agent.ports(), &before.module, port_out@, sender@);
                }
                self.comps[a].agent.connect(port_out, sender)
            },
            Some(element) => {
                proof {
                    lemma_connect_array_keeps_types(
                        before.agent.ports(),
                        &before.module,
                        port_out@,
                        element@,
                        sender@,
                    );
                }
                self.comps[a].agent.connect_array(port_out, element.to_owned(), sender)
            },
        };
        proof {
            let after = self.comps[a as int];
            assert(after.inv(a as int));
            assert forall|i: int| 0 <= i < self.comps.len() implies (#[trigger] self.comps[i]).inv(
                i,
            ) by {
                if i != a {
                    assert(self.comps[i] == mid.comps[i]);
                }
            }
            assert(self@.comps =~= ready.rewired(a as int, after.agent.ports()).comps);
        }
        r
    }

    /// Wires the scalar output `port_out` of the agent `comp_out` to the
    /// scalar input `port_in` of the agent `comp_in`.
    pub fn connect(&mut self, comp_out: &str, port_out: &str, comp_in: &str, port_in: &str) -> (r:
        Result<(), Error>)
        requires
            old(self).wf(),
        ensures
            final(self).wf(),
            old(self)@.wiring_done(
                final(self)@,
                r,
                comp_out@,
                port_out@,
                None,
                comp_in@,
                port_in@,
                None,
            ),
    {
        self.wire(comp_out, port_out, None, comp_in, port_in, None)
    }

    /// Wires the element `element_out` of the array output `port_out` of the
    /// agent `comp_out` to the scalar input `port_in` of the agent `comp_in`.
    pub fn connect_array(
        &mut self,
        comp_out: &str,
        port_out: &str,
        element_out: &str,
        comp_in: &str,
        port_in: &str,
    ) -> (r: Result<(), Error>)
        requires
            old(self).wf(),
        ensures
            final(self).wf(),
            old(self)@.wiring_done(
                final(self)@,
                r,
                comp_out@,
                port_out@,
                Some(element_out@),
                comp_in@,
                port_in@,
                None,
            ),
    {
        self.wire(comp_out, port_out, Some(element_out), comp_in, port_in, None)
    }

    /// Wires the scalar output `port_out` of the agent `comp_out` to the
    /// element `element_in` of the array input `port_in` of the agent
    /// `comp_in`, adding the element where it is missing.
    pub fn connect_to_array(
        &mut self,
        comp_out: &str,
        port_out: &str,
        comp_in: &str,
        port_in: &str,
        element_in: &str,
    ) -> (r: Result<(), Error>)
        requires
            old(self).wf(),
        ensures
            final(self).wf(),
            old(self)@.wiring_done(
                final(self)@,
                r,
                comp_out@,
                port_out@,
                None,
                comp_in@,
                port_in@,
                Some(element_in@),
            ),
    {
        self.wire(comp_out, port_out, None, comp_in, port_in, Some(element_in))
    }

    /// Wires the element `element_out` of the array output `port_out` of the
    /// agent `comp_out` to the element `element_in` of the array input
    /// `port_in` of the agent `comp_in`, adding that element where it is
    /// missing.
    pub fn connect_array_to_array(
        &mut self,
        comp_out: &str,
        port_out: &str,
        element_out: &str,
        comp_in: &str,
        port_in: &str,
        element_in: &str,
    ) -> (r: Result<(), Error>)
        requires
            old(self).wf(),
        ensures
            final(self).wf(),
            old(self)@.wiring_done(
                final(self)@,
                r,
                comp_out@,
                port_out@,
                Some(element_out@),
                comp_in@,
                port_in@,
                Some(element_in@),
            ),
    {
        self.wire(comp_out, port_out, Some(element_out), comp_in, port_in, Some(element_in))
    }

    /// Makes sure that the array input `port` of the agent `comp` has the
    /// element `element`, so that producers can be wired to it later. An
    /// element that is there already is kept with its channel.
    pub fn add_input_array_element(&mut self, comp: &str, port: &str, element: &str) -> (r: Result<
        (),
        Error,
    >)
        requires
            old(self).wf(),
        ensures
            final(self).wf(),
            match old(self)@.consumer(comp@, port@, Some(element@)) {
                Ok((b, _)) => r.is_ok() && final(self)@ == old(self)@.with_element(
                    b as int,
                    port@,
                    element@,
                ),
                Err(e) => r.is_err() && r.unwrap_err()@ == e && final(self)@ == old(self)@,
            },
    {
        let b = match self.find(comp) {
            Some(b) => b,
            None => { return Err(Error::AgentNotFound(comp.to_owned())); },
        };
        proof {
            assert(self.comps[b as int].inv(b as int));
        }
        match self.comps[b].module.get_schema_input_array(port) {
            Ok(_) => {},
            Err(e) => { return Err(e); },
        }
        match self.array_sender(b, port, element) {
            Ok(_) => Ok(()),
            Err(e) => Err(e),
        }
    }

    /// Puts every live agent that declares no input at the back of the run
    /// queue, in the order of their identities: no message can wake such an
    /// agent, so it is scheduled once here.
    pub fn start(&mut self)
        requires
            old(self).wf(),
        ensures
            final(self).wf(),
            final(self)@ == (SchedulerView {
                queue: old(self)@.queue + old(self)@.seeds(old(self)@.comps.len() as int),
                ..old(self)@
            }),
    {
        let mut i: usize = 0;
        while i < self.comps.len()
            invariant
                i <= self.comps.len(),
                self.wf(),
                self.comps == old(self).comps,
                self.names == old(self).names,
                self.net == old(self).net,
                self.queue@ == old(self)@.queue + old(self)@.seeds(i as int),
            decreases self.comps.len() - i,
        {
            proof {
                assert(self.comps[i as int].inv(i as int));
                assert(old(self)@.comps[i as int] == self.comps[i as int]@);
            }
            if !self.comps[i].retired && !self.comps[i].agent.is_input_ports() {
                self.queue.push_back(i);
            }
            proof {
                assert(self.queue@ =~= old(self)@.queue + old(self)@.seeds(i as int + 1));
            }
            i += 1;
        }
        proof {
            assert(self@.comps =~= old(self)@.comps);
        }
    }

    /// Takes one turn of the run loop: takes the oldest entry from the run
    /// queue and, where it names a live agent, runs one step of that agent.
    /// An agent whose step ends with [`Signal::End`] or with an error is
    /// retired; the rest of the graph goes on.
    pub fn step(&mut self) -> (d: Dispatch)
        requires
            old(self).wf(),
        ensures
            final(self).wf(),
            old(self)@.stepped(final(self)@, d),
    {
        let id = match self.queue.pop_front() {
            Some(id) => id,
            None => {
                proof {
                    assert(self@.comps =~= old(self)@.comps);
                    assert(self@.queue =~= old(self)@.queue);
                }
                return Dispatch::Idle;
            },
        };
        if id >= self.comps.len() {
            proof {
                assert(self@.comps =~= old(self)@.comps);
            }
            return Dispatch::Skipped(id);
        }
        if self.comps[id].retired {
            proof {
                assert(self@.comps =~= old(self)@.comps);
                assert(old(self)@.comps[id as int] == self.comps[id as int]@);
            }
            return Dispatch::Skipped(id);
        }
        proof {
            assert(self.comps[id as int].inv(id as int));
            assert(old(self)@.comps[id as int] == self.comps[id as int]@);
        }
        let ghost mid = *self;
        let outcome = self.comps[id].agent.run(&mut self.net);
        let retire = match &outcome {
            Ok(Signal::Continue) => false,
            _ => true,
        };
        if retire {
            self.comps[id].retired = true;
        }
        proof {
            assert(self.comps[id as int].inv(id as int));
            assert forall|i: int| 0 <= i < self.comps.len() implies (#[trigger] self.comps[i]).inv(
                i,
            ) by {
                if i != id {
                    assert(self.comps[i] == mid.comps[i]);
                }
            }
        }
        let ghost ran = self@;
        proof {
            assert(ran.net == self.net@);
            assert(ran.comps[id as int].logic == self.comps[id as int].agent.logic());
            assert(ran.queue =~= old(self)@.queue.drop_first());
            assert forall|i: int|
                0 <= i < old(self)@.comps.len() && i != id implies #[trigger] ran.comps[i] == old(
                self,
            )@.comps[i] by {
                assert(self.comps[i] == mid.comps[i]);
            }
            assert(ran.comps[id as int] == self.comps[id as int]@);
        }
        self.gather();
        proof {
            let left = old(self)@.left_by_step(self@);
            assert(left.notices =~= ran.net.notices);
            assert(left == ran.net);
            assert(self@.queue =~= old(self)@.queue.drop_first() + left.notices);
        }
        Dispatch::Ran(id, outcome)
    }

    /// Runs the graph until no agent waits for a step, and returns the
    /// number of turns taken. The count stops the loop where it reaches the
    /// largest number that it can hold.
    pub fn join(&mut self) -> (turns: usize)
        requires
            old(self).wf(),
        ensures
            final(self).wf(),
            old(self)@.evolved(final(self)@),
            final(self)@.queue.len() == 0 || turns == usize::MAX,
            exists|states: Seq<SchedulerView<L>>, reports: Seq<Dispatch>|
                drove(old(self)@, final(self)@, turns, states, reports),
    {
        let mut turns: usize = 0;
        let ghost mut states: Seq<SchedulerView<L>> = seq![self@];
        let ghost mut reports: Seq<Dispatch> = Seq::empty();
        while turns < usize::MAX
            invariant
                self.wf(),
                old(self)@.evolved(self@),
                drove(old(self)@, self@, turns, states, reports),
            ensures
                self.wf(),
                old(self)@.evolved(self@),
                self@.queue.len() == 0 || turns == usize::MAX,
                drove(old(self)@, self@, turns, states, reports),
            decreases usize::MAX - turns,
        {
            let ghost before = self@;
            let d = self.step();
            proof {
                lemma_step_evolves(before, self@, d);
                lemma_evolved_transitive(old(self)@, before, self@);
            }
            match d {
                Dispatch::Idle => { break ; },
                _ => {},
            }
            proof {
                let longer = states.push(self@);
                let more = reports.push(d);
                assert forall|k: int| 0 <= k < more.len() implies (#[trigger] longer[k]).stepped(
                    longer[k + 1],
                    more[k],
                ) by {
                    if k < reports.len() {
                        assert(states[k].stepped(states[k + 1], reports[k]));
                    }
                }
                states = longer;
                reports = more;
            }
            turns += 1;
        }
        turns
    }
}

/// A turn of the run loop keeps names, modules and ports, and leaves every
/// retired agent as it is.
pub proof fn lemma_step_evolves<L: Logic>(before: SchedulerView<L>, after: SchedulerView<L>, d: Dispatch)
    requires
        before.stepped(after, d),
    ensures
        before.evolved(after),
{
}

/// What holds across two runs of steps holds across both together.
pub proof fn lemma_evolved_transitive<L: Logic>(
    a: SchedulerView<L>,
    b: SchedulerView<L>,
    c: SchedulerView<L>,
)
    requires
        a.evolved(b),
        b.evolved(c),
    ensures
        a.evolved(c),
{
    assert forall|i: int| 0 <= i < a.comps.len() implies {
        &&& (#[trigger] c.comps[i]).module == a.comps[i].module
        &&& c.comps[i].ports == a.comps[i].ports
        &&& a.comps[i].retired ==> c.comps[i] == a.comps[i]
    } by {
        assert(b.comps[i].module == a.comps[i].module);
    }
}

/// The report `d` says that agent `id` ran a step.
pub open spec fn ran(d: Dispatch, id: usize) -> bool {
    match d {
        Dispatch::Ran(who, _) => who == id,
        _ => false,
    }
}

/// `states` and `reports` record a run of the loop: each turn leads from one
/// state to the next with its report.
pub open spec fn is_run<L: Logic>(states: Seq<SchedulerView<L>>, reports: Seq<Dispatch>) -> bool {
    &&& states.len() == reports.len() + 1
    &&& forall|k: int|
        0 <= k < reports.len() ==> (#[trigger] states[k]).stepped(states[k + 1], reports[k])
}

/// `states` and `reports` record how the run loop drove the graph `before`
/// to the graph `after` in `turns` turns, each of which found an entry in the
/// run queue.
pub open spec fn drove<L: Logic>(
    before: SchedulerView<L>,
    after: SchedulerView<L>,
    turns: usize,
    states: Seq<SchedulerView<L>>,
    reports: Seq<Dispatch>,
) -> bool {
    &&& is_run(states, reports)
    &&& reports.len() == turns
    &&& states[0] == before
    &&& states[turns as int] == after
    &&& forall|k: int| 0 <= k < reports.len() ==> #[trigger] reports[k] != Dispatch::Idle
}

/// Refusal on schema mismatch: a wiring between two declared ports whose
/// schemas differ fails with `SchemaMismatch`, and the graph, with the ports
/// of both agents, is as it was.
pub proof fn lemma_mismatch_is_refused<L: Logic>(
    before: SchedulerView<L>,
    after: SchedulerView<L>,
    r: Result<(), Error>,
    from: Seq<char>,
    from_port: Seq<char>,
    from_element: Option<Seq<char>>,
    to: Seq<char>,
    to_port: Seq<char>,
    to_element: Option<Seq<char>>,
    produced: (usize, Seq<char>),
    consumed: (usize, Seq<char>),
)
    requires
        before.wiring_done(after, r, from, from_port, from_element, to, to_port, to_element),
        before.producer(from, from_port, from_element) == Ok::<_, ErrorView>(produced),
        before.consumer(to, to_port, to_element) == Ok::<_, ErrorView>(consumed),
        produced.1 != consumed.1,
    ensures
        r.is_err(),
        r.unwrap_err()@ == ErrorView::SchemaMismatch(produced.1, consumed.1),
        after == before,
{
}

/// Refusal of unknown ports: a wiring between two registered agents that
/// names a port which its agent does not declare fails with `PortNotFound`
/// for that port, the consumer's side first, and the graph is as it was, so
/// that every connection made before still stands.
pub proof fn lemma_unknown_port_is_refused<L: Logic>(
    before: SchedulerView<L>,
    after: SchedulerView<L>,
    r: Result<(), Error>,
    from: Seq<char>,
    from_port: Seq<char>,
    from_element: Option<Seq<char>>,
    to: Seq<char>,
    to_port: Seq<char>,
    to_element: Option<Seq<char>>,
)
    requires
        before.wiring_done(after, r, from, from_port, from_element, to, to_port, to_element),
        before.names.contains_key(from),
        before.names.contains_key(to),
        before.producer(from, from_port, from_element).is_err() || before.consumer(
            to,
            to_port,
            to_element,
        ).is_err(),
    ensures
        r.is_err(),
        r.unwrap_err()@ == (if before.consumer(to, to_port, to_element).is_err() {
            ErrorView::PortNotFound(to_port)
        } else {
            ErrorView::PortNotFound(from_port)
        }),
        after == before,
{
}

/// Adding an element to a declared array input keeps the graph sound and
/// touches no agent but the one that gets the element.
pub proof fn lemma_with_element_keeps_graph_sound<L: Logic>(
    before: SchedulerView<L>,
    b: int,
    port: Seq<char>,
    element: Seq<char>,
)
    requires
        before.wf(),
        0 <= b < before.comps.len(),
        before.comps[b].ports.inarr.contains_key(port),
    ensures
        ({
            let after = before.with_element(b, port, element);
            &&& after.wf()
            &&& after.names == before.names
            &&& after.queue == before.queue
            &&& after.comps.len() == before.comps.len()
            &&& after.comps[b].ports.inarr.contains_key(port)
            &&& after.comps[b].ports.inarr[port].elements.contains_key(element)
            &&& after.comps[b].ports.inarr[port].schema == before.comps[b].ports.inarr[port].schema
            &&& after.comps[b].ports.senders() == before.comps[b].ports.senders()
            &&& after.comps[b].ports.outputs == before.comps[b].ports.outputs
            &&& after.comps[b].ports.outarr == before.comps[b].ports.outarr
            &&& forall|i: int|
                0 <= i < before.comps.len() ==> {
                    &&& (#[trigger] after.comps[i]).module == before.comps[i].module
                    &&& after.comps[i].logic == before.comps[i].logic
                    &&& after.comps[i].retired == before.comps[i].retired
                    &&& i != b ==> after.comps[i] == before.comps[i]
                }
        }),
{
    let ports = before.comps[b].ports;
    assert(before.comps[b].wf(b));
    if !ports.inarr[port].elements.contains_key(element) {
        let schema = ports.inarr[port].schema;
        let end = Endpoint { chan: before.net.chans.len() as usize, schema };
        lemma_add_inarr_element_keeps_types(ports, &before.comps[b].module, port, element, end);
        let after = before.with_element(b, port, element);
        assert forall|i: int| 0 <= i < after.comps.len() implies (#[trigger] after.comps[i]).wf(
            i,
        ) by {
            if i != b {
                assert(before.comps[i].wf(i));
            }
        }
    }
}

/// A wiring that the plan admits keeps the graph sound: every agent keeps
/// its identity, its module and its declared ports, each port on the schema
/// that it was declared with and each installed handle on the schema of its
/// port. It touches no agent but the producer and the consumer.
pub proof fn lemma_wiring_keeps_graph_sound<L: Logic>(
    before: SchedulerView<L>,
    from: Seq<char>,
    from_port: Seq<char>,
    from_element: Option<Seq<char>>,
    to: Seq<char>,
    to_port: Seq<char>,
    to_element: Option<Seq<char>>,
    a: usize,
    b: usize,
)
    requires
        before.wf(),
        before.wiring_plan(from, from_port, from_element, to, to_port, to_element) == Ok::<
            _,
            ErrorView,
        >((a, b)),
    ensures
        ({
            let after = before.wired(
                a as int,
                from_port,
                from_element,
                b as int,
                to_port,
                to_element,
            );
            &&& after.wf()
            &&& after.names == before.names
            &&& after.queue == before.queue
            &&& after.comps.len() == before.comps.len()
            &&& forall|i: int|
                0 <= i < before.comps.len() ==> {
                    &&& (#[trigger] after.comps[i]).module == before.comps[i].module
                    &&& after.comps[i].logic == before.comps[i].logic
                    &&& after.comps[i].retired == before.comps[i].retired
                    &&& i != a && i != b ==> after.comps[i] == before.comps[i]
                }
        }),
{
    assert(before.names.contains_key(to) && before.names[to] == b);
    assert(before.names.contains_key(from) && before.names[from] == a);
    assert(before.comps[b as int].wf(b as int));
    let ready = match to_element {
        None => before,
        Some(k) => before.with_element(b as int, to_port, k),
    };
    match to_element {
        None => {},
        Some(k) => {
            lemma_with_element_keeps_graph_sound(before, b as int, to_port, k);
        },
    }
    let end = match to_element {
        None => ready.comps[b as int].ports.senders()[to_port],
        Some(k) => ready.comps[b as int].ports.inarr[to_port].elements[k],
    };
    assert(ready.comps[a as int].wf(a as int));
    assert(ready.comps[b as int].wf(b as int));
    let ports = ready.comps[a as int].ports;
    let module = ready.comps[a as int].module;
    match from_element {
        None => {
            lemma_connect_keeps_types(ports, &module, from_port, end);
        },
        Some(k) => {
            lemma_connect_array_keeps_types(ports, &module, from_port, k, end);
        },
    }
    let after = before.wired(a as int, from_port, from_element, b as int, to_port, to_element);
    assert forall|i: int| 0 <= i < after.comps.len() implies (#[trigger] after.comps[i]).wf(i) by {
        if i != a {
            assert(ready.comps[i].wf(i));
        }
    }
}

/// Every live agent that declares no input is among the agents that
/// starting the coordinator puts on the run queue.
pub proof fn lemma_start_seeds_agents_without_inputs<L: Logic>(
    graph: SchedulerView<L>,
    n: int,
    id: usize,
)
    requires
        0 <= id < n <= graph.comps.len(),
        graph.live(id),
        !graph.comps[id as int].ports.has_inputs(),
    ensures
        graph.seeds(n).contains(id),
    decreases n,
{
    if id == n - 1 {
        let rest = graph.seeds(n - 1);
        assert(rest.push(id)[rest.len() as int] == id);
    } else {
        lemma_start_seeds_agents_without_inputs(graph, n - 1, id);
        let rest = graph.seeds(n - 1);
        let at = choose|at: int| 0 <= at < rest.len() && rest[at] == id;
        assert(graph.seeds(n)[at] == id);
    }
}

/// A scheduled agent is run: where a live agent stands at place `p` of the
/// run queue, it runs a step in one of the next `p + 1` turns of the run
/// loop, whether or not it declares any input.
pub proof fn lemma_queued_agent_runs<L: Logic>(
    states: Seq<SchedulerView<L>>,
    reports: Seq<Dispatch>,
    p: int,
    id: usize,
)
    requires
        is_run(states, reports),
        0 <= p < reports.len(),
        p < states[0].queue.len(),
        states[0].queue[p] == id,
        states[0].live(id),
    ensures
        exists|k: int| 0 <= k <= p && ran(#[trigger] reports[k], id),
    decreases p,
{
    let first = states[0];
    let next = states[1];
    assert(first.stepped(next, reports[0]));
    if ran(reports[0], id) {
    } else {
        assert(p > 0);
        assert(first.queue.drop_first().is_prefix_of(next.queue));
        assert(next.queue[p - 1] == first.queue.drop_first()[p - 1]);
        assert(next.live(id));
        let later = states.drop_first();
        let rest = reports.drop_first();
        assert forall|k: int| 0 <= k < rest.len() implies (#[trigger] later[k]).stepped(
            later[k + 1],
            rest[k],
        ) by {
            assert(states[k + 1].stepped(states[k + 2], reports[k + 1]));
        }
        lemma_queued_agent_runs(later, rest, p - 1, id);
        let k = choose|k: int| 0 <= k <= p - 1 && ran(#[trigger] rest[k], id);
        assert(ran(reports[k + 1], id));
    }
}

/// One thing that happens to a graph while it runs: the run loop takes a
/// turn, or a message is sent into a channel.
pub enum Event {
    Turn(Dispatch),
    Sent(usize, Msg),
}

/// The event `e` leads from the graph `before` to the graph `after`.
pub open spec fn happened<L: Logic>(before: SchedulerView<L>, after: SchedulerView<L>, e: Event) -> bool {
    match e {
        Event::Turn(d) => before.stepped(after, d),
        Event::Sent(chan, msg) => chan < before.net.chans.len() && after == before.delivered(
            chan as int,
            msg,
        ),
    }
}

/// The event `e` is a turn of the run loop in which agent `id` ran a step.
pub open spec fn runs(e: Event, id: usize) -> bool {
    match e {
        Event::Turn(d) => ran(d, id),
        Event::Sent(_, _) => false,
    }
}

/// `states` and `events` record what happened to a graph: each event leads
/// from one state to the next.
pub open spec fn is_history<L: Logic>(states: Seq<SchedulerView<L>>, events: Seq<Event>) -> bool {
    &&& states.len() == events.len() + 1
    &&& forall|k: int|
        0 <= k < events.len() ==> happened(#[trigger] states[k], states[k + 1], events[k])
}

/// Retirement is final: once an agent is retired, no turn of the run loop
/// runs it again and nothing about it changes, whatever messages are sent
/// to it and however many entries of the run queue name it.
pub proof fn lemma_retired_agent_never_runs<L: Logic>(
    states: Seq<SchedulerView<L>>,
    events: Seq<Event>,
    id: usize,
)
    requires
        is_history(states, events),
        id < states[0].comps.len(),
        states[0].comps[id as int].retired,
    ensures
        forall|k: int| 0 <= k < events.len() ==> !runs(#[trigger] events[k], id),
        forall|k: int|
            0 <= k < states.len() ==> id < (#[trigger] states[k]).comps.len() && states[k].comps[id as int]
                == states[0].comps[id as int],
    decreases events.len(),
{
    if events.len() > 0 {
        let n = events.len() as int;
        let head_states = states.take(n);
        let head_events = events.take(n - 1);
        assert forall|k: int| 0 <= k < head_events.len() implies happened(
            #[trigger] head_states[k],
            head_states[k + 1],
            head_events[k],
        ) by {
            assert(happened(states[k], states[k + 1], events[k]));
        }
        lemma_retired_agent_never_runs(head_states, head_events, id);
        assert(head_states[n - 1] == states[n - 1]);
        assert(happened(states[n - 1], states[n], events[n - 1]));
        assert forall|k: int| 0 <= k < events.len() implies !runs(#[trigger] events[k], id) by {
            if k < n - 1 {
                assert(head_events[k] == events[k]);
            }
        }
        assert forall|k: int| 0 <= k < states.len() implies id < (#[trigger] states[k]).comps.len()
            && states[k].comps[id as int] == states[0].comps[id as int] by {
            if k < n {
                assert(head_states[k] == states[k]);
            }
        }
    }
}

/// A message that is sent into the graph waits in its channel and may put
/// the channel's owner on the run queue, but touches no agent.
pub proof fn lemma_send_keeps_agents<L: Logic>(graph: SchedulerView<L>, chan: int, msg: Msg)
    requires
        0 <= chan < graph.net.chans.len(),
    ensures
        graph.delivered(chan, msg).comps == graph.comps,
        graph.delivered(chan, msg).names == graph.names,
        graph.delivered(chan, msg).net.chans[chan].queue == graph.net.chans[chan].queue.push(msg),
{
}

/// Each turn that finds an entry takes one entry from the run queue and
/// drops none of the others.
pub proof fn lemma_queue_shrinks_slowly<L: Logic>(
    states: Seq<SchedulerView<L>>,
    reports: Seq<Dispatch>,
    k: int,
)
    requires
        is_run(states, reports),
        0 <= k <= reports.len(),
    ensures
        states[k].queue.len() >= states[0].queue.len() - k,
    decreases k,
{
    if k > 0 {
        lemma_queue_shrinks_slowly(states, reports, k - 1);
        assert(states[k - 1].stepped(states[k], reports[k - 1]));
    }
}

/// Running a graph until its queue is empty runs every live agent that
/// waited in the queue when the run began. With
/// [`lemma_start_seeds_agents_without_inputs`] this holds of every live agent
/// without inputs once the coordinator was started.
pub proof fn lemma_join_runs_what_waited<L: Logic>(
    before: SchedulerView<L>,
    after: SchedulerView<L>,
    turns: usize,
    states: Seq<SchedulerView<L>>,
    reports: Seq<Dispatch>,
    p: int,
    id: usize,
)
    requires
        drove(before, after, turns, states, reports),
        after.queue.len() == 0,
        0 <= p < before.queue.len(),
        before.queue[p] == id,
        before.live(id),
    ensures
        exists|k: int| 0 <= k <= p && ran(#[trigger] reports[k], id),
{
    lemma_queue_shrinks_slowly(states, reports, turns as int);
    lemma_queued_agent_runs(states, reports, p, id);
}

} // verus!
