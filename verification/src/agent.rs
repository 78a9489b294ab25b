//! The agent runtime contract and the port bundle that every agent carries.
//!
//! An agent is built from a [`Module`]: its scalar inputs, its configuration
//! and aggregation ports are opened at once, its outputs start unconnected and
//! its array ports start without elements. The coordinator installs handles
//! through the [`Agent`] trait; the agent's own logic reads and writes through
//! the [`PortSet`] it is handed at each step.

use crate::module::{distinct, lemma_distinct_lookup, lemma_lookup_some, lookup, position, Module, PortDecl};
use crate::ports::{ChannelView, Channels, ChannelsView, Endpoint, Msg, MsgReceiver, MsgSender};
use crate::result::{Error, ErrorView};
use crate::scheduler::Signal;
use crate::table::Table;
use vstd::prelude::*;

verus! {

/// The mathematical form of a scalar output port.
pub struct OutputView {
    /// The schema identifier that the port was declared with.
    pub schema: Seq<char>,
    /// The channel that the port sends into, once it is connected.
    pub sender: Option<Endpoint>,
}

/// The mathematical form of an array port.
pub struct ArrayView {
    /// The schema identifier that the port was declared with.
    pub schema: Seq<char>,
    /// The channel of each element, by the element's key.
    pub elements: Map<Seq<char>, Endpoint>,
}

/// The mathematical form of an agent's port bundle.
pub struct PortsView {
    /// The identity that the coordinator gave the agent.
    pub id: usize,
    /// The channel of each declared scalar input.
    pub inputs: Map<Seq<char>, Endpoint>,
    /// The channel of the configuration port, if the agent has one.
    pub option: Option<Endpoint>,
    /// The channel of the aggregation port, if the agent has one.
    pub accumulator: Option<Endpoint>,
    /// The declared array inputs.
    pub inarr: Map<Seq<char>, ArrayView>,
    /// The declared scalar outputs.
    pub outputs: Map<Seq<char>, OutputView>,
    /// The declared array outputs.
    pub outarr: Map<Seq<char>, ArrayView>,
}

impl PortsView {
    /// The agent declares at least one scalar or array input, so that a
    /// message can wake it.
    pub open spec fn has_inputs(self) -> bool {
        !self.inputs.dom().is_empty() || !self.inarr.dom().is_empty()
    }

    /// The bundle after `sender` was installed in the scalar output `port`.
    pub open spec fn connect(self, port: Seq<char>, sender: Endpoint) -> PortsView
        recommends
            self.outputs.contains_key(port),
    {
        PortsView {
            outputs: self.outputs.insert(
                port,
                OutputView { schema: self.outputs[port].schema, sender: Some(sender) },
            ),
            ..self
        }
    }

    /// The bundle after `sender` was installed under `element` in the array
    /// output `port`.
    pub open spec fn connect_array(
        self,
        port: Seq<char>,
        element: Seq<char>,
        sender: Endpoint,
    ) -> PortsView
        recommends
            self.outarr.contains_key(port),
    {
        PortsView {
            outarr: self.outarr.insert(
                port,
                ArrayView {
                    schema: self.outarr[port].schema,
                    elements: self.outarr[port].elements.insert(element, sender),
                },
            ),
            ..self
        }
    }

    /// The bundle after `recv` was installed under `element` in the array
    /// input `port`.
    pub open spec fn add_inarr_element(
        self,
        port: Seq<char>,
        element: Seq<char>,
        recv: Endpoint,
    ) -> PortsView
        recommends
            self.inarr.contains_key(port),
    {
        PortsView {
            inarr: self.inarr.insert(
                port,
                ArrayView {
                    schema: self.inarr[port].schema,
                    elements: self.inarr[port].elements.insert(element, recv),
                },
            ),
            ..self
        }
    }

    /// Where a message sent on the scalar output `port` goes.
    pub open spec fn output_target(self, port: Seq<char>) -> Result<Endpoint, ErrorView> {
        if !self.outputs.contains_key(port) {
            Err(ErrorView::PortNotFound(port))
        } else if self.outputs[port].sender.is_none() {
            Err(ErrorView::OutputNotConnected(port))
        } else {
            Ok(self.outputs[port].sender.unwrap())
        }
    }

    /// Where a message sent on the element `element` of the array output
    /// `port` goes.
    pub open spec fn array_target(self, port: Seq<char>, element: Seq<char>) -> Result<
        Endpoint,
        ErrorView,
    > {
        if !self.outarr.contains_key(port) {
            Err(ErrorView::PortNotFound(port))
        } else if !self.outarr[port].elements.contains_key(element) {
            Err(ErrorView::OutputNotConnected(element))
        } else {
            Ok(self.outarr[port].elements[element])
        }
    }

    /// Where a message with the routing tag `action` goes when it is sent on
    /// `port`: to the element of the array output `port` whose key is the tag,
    /// if there is one, and else where the scalar output `port` leads.
    pub open spec fn route(self, port: Seq<char>, action: Option<Seq<char>>) -> Result<
        Endpoint,
        ErrorView,
    > {
        if action.is_some() && self.outarr.contains_key(port)
            && self.outarr[port].elements.contains_key(action.unwrap()) {
            Ok(self.outarr[port].elements[action.unwrap()])
        } else {
            self.output_target(port)
        }
    }

    /// The channel that the scalar input `port` reads.
    pub open spec fn input_source(self, port: Seq<char>) -> Result<Endpoint, ErrorView> {
        if self.inputs.contains_key(port) {
            Ok(self.inputs[port])
        } else {
            Err(ErrorView::PortNotFound(port))
        }
    }

    /// The channel that the element `element` of the array input `port`
    /// reads.
    pub open spec fn array_source(self, port: Seq<char>, element: Seq<char>) -> Result<
        Endpoint,
        ErrorView,
    > {
        if self.inarr.contains_key(port) && self.inarr[port].elements.contains_key(element) {
            Ok(self.inarr[port].elements[element])
        } else if self.inarr.contains_key(port) {
            Err(ErrorView::PortNotFound(element))
        } else {
            Err(ErrorView::PortNotFound(port))
        }
    }

    /// The channels through which the agent can be sent to from outside, by
    /// port name: its scalar inputs, its configuration port under `option`
    /// and its aggregation port under `accumulator`.
    pub open spec fn senders(self) -> Map<Seq<char>, Endpoint> {
        Map::new(
            |n: Seq<char>|
                self.inputs.contains_key(n) || (self.option.is_some() && n == "option"@) || (
                self.accumulator.is_some() && n == "accumulator"@),
            |n: Seq<char>|
                if self.inputs.contains_key(n) {
                    self.inputs[n]
                } else if self.option.is_some() && n == "option"@ {
                    self.option.unwrap()
                } else {
                    self.accumulator.unwrap()
                },
        )
    }

    /// The bundle has exactly the ports that `module` declares, each with the
    /// schema that `module` gives it.
    pub open spec fn declared_by(self, module: &Module) -> bool {
        &&& forall|n: Seq<char>| #[trigger]
            self.inputs.contains_key(n) <==> lookup(module.inputs@, n).is_some()
        &&& forall|n: Seq<char>| #[trigger]
            self.inputs.contains_key(n) ==> self.inputs[n].schema == lookup(
                module.inputs@,
                n,
            ).unwrap()
        &&& self.option.is_some() <==> module.option.is_some()
        &&& self.option.is_some() ==> self.option.unwrap().schema == module.option.unwrap()@
        &&& self.accumulator.is_some() <==> module.accumulator.is_some()
        &&& self.accumulator.is_some() ==> self.accumulator.unwrap().schema
            == module.accumulator.unwrap()@
        &&& forall|n: Seq<char>| #[trigger]
            self.inarr.contains_key(n) <==> lookup(module.inarr@, n).is_some()
        &&& forall|n: Seq<char>| #[trigger]
            self.inarr.contains_key(n) ==> self.inarr[n].schema == lookup(module.inarr@, n).unwrap()
        &&& forall|n: Seq<char>| #[trigger]
            self.outputs.contains_key(n) <==> lookup(module.outputs@, n).is_some()
        &&& forall|n: Seq<char>| #[trigger]
            self.outputs.contains_key(n) ==> self.outputs[n].schema == lookup(
                module.outputs@,
                n,
            ).unwrap()
        &&& forall|n: Seq<char>| #[trigger]
            self.outarr.contains_key(n) <==> lookup(module.outarr@, n).is_some()
        &&& forall|n: Seq<char>| #[trigger]
            self.outarr.contains_key(n) ==> self.outarr[n].schema == lookup(
                module.outarr@,
                n,
            ).unwrap()
    }

    /// The agent's end of its aggregation channel.
    pub open spec fn accumulator_end(self) -> Result<Endpoint, ErrorView> {
        match self.accumulator {
            Some(end) => Ok(end),
            None => Err(ErrorView::PortNotFound("accumulator"@)),
        }
    }

    /// Every installed handle carries the schema of the port that holds it.
    pub open spec fn well_typed(self) -> bool {
        &&& forall|p: Seq<char>| #[trigger]
            self.outputs.contains_key(p) && self.outputs[p].sender.is_some()
                ==> self.outputs[p].sender.unwrap().schema == self.outputs[p].schema
        &&& forall|p: Seq<char>, k: Seq<char>|
            self.outarr.contains_key(p) && #[trigger] self.outarr[p].elements.contains_key(k)
                ==> self.outarr[p].elements[k].schema == self.outarr[p].schema
        &&& forall|p: Seq<char>, k: Seq<char>|
            self.inarr.contains_key(p) && #[trigger] self.inarr[p].elements.contains_key(k)
                ==> self.inarr[p].elements[k].schema == self.inarr[p].schema
    }
}

/// A scalar output port.
struct OutputPort {
    schema: String,
    sender: Option<MsgSender>,
}

impl View for OutputPort {
    type V = OutputView;

    closed spec fn view(&self) -> OutputView {
        OutputView {
            schema: self.schema@,
            sender: match self.sender {
                Some(s) => Some(s@),
                None => None,
            },
        }
    }
}

/// An array port whose elements are handles of type `H`.
pub struct ArrayPort<H> {
    /// The schema identifier that the port was declared with.
    pub schema: String,
    /// The handle of each element, by the element's key.
    pub elements: Table<H>,
}

impl<H: View<V = Endpoint>> View for ArrayPort<H> {
    type V = ArrayView;

    open spec fn view(&self) -> ArrayView {
        ArrayView { schema: self.schema@, elements: self.elements@ }
    }
}

/// The ports of one agent.
pub struct PortSet {
    id: usize,
    input: Table<MsgReceiver>,
    option: Option<MsgReceiver>,
    accumulator: Option<MsgReceiver>,
    accumulator_out: Option<MsgSender>,
    inarr: Table<ArrayPort<MsgReceiver>>,
    output: Table<OutputPort>,
    outarr: Table<ArrayPort<MsgSender>>,
}

impl View for PortSet {
    type V = PortsView;

    closed spec fn view(&self) -> PortsView {
        PortsView {
            id: self.id,
            inputs: self.input@,
            option: match self.option {
                Some(r) => Some(r@),
                None => None,
            },
            accumulator: match self.accumulator {
                Some(r) => Some(r@),
                None => None,
            },
            inarr: self.inarr@,
            outputs: self.output@,
            outarr: self.outarr@,
        }
    }
}

impl PortSet {
    /// The identity that the coordinator gave the agent.
    pub fn id(&self) -> (id: usize)
        ensures
            id == self@.id,
    {
        self.id
    }

    /// Takes the oldest message that waits on the scalar input `port`.
    pub fn recv(&self, net: &mut Channels, port: &str) -> (r: Result<Msg, Error>)
        requires
            self.wf(),
        ensures
            final(net)@ == received(old(net)@, self@.input_source(port@)).0,
            agrees(r, received(old(net)@, self@.input_source(port@)).1),
    {
        match self.input.get(port) {
            Some(receiver) => net.recv(receiver),
            None => Err(Error::PortNotFound(port.to_owned())),
        }
    }

    /// Takes the oldest message that waits on the element `element` of the
    /// array input `port`.
    pub fn recv_array(&self, net: &mut Channels, port: &str, element: &str) -> (r: Result<
        Msg,
        Error,
    >)
        requires
            self.wf(),
        ensures
            final(net)@ == received(old(net)@, self@.array_source(port@, element@)).0,
            agrees(r, received(old(net)@, self@.array_source(port@, element@)).1),
    {
        match self.inarr.get(port) {
            Some(arr) => match arr.elements.get(element) {
                Some(receiver) => net.recv(receiver),
                None => Err(Error::PortNotFound(element.to_owned())),
            },
            None => Err(Error::PortNotFound(port.to_owned())),
        }
    }

    /// Sends `msg` on the scalar output `port`.
    pub fn send(&self, net: &mut Channels, port: &str, msg: Msg) -> (r: Result<(), Error>)
        requires
            self.wf(),
        ensures
            final(net)@ == sent(old(net)@, self@.output_target(port@), msg).0,
            agrees(r, sent(old(net)@, self@.output_target(port@), msg).1),
    {
        match self.output.get(port) {
            Some(out) => match &out.sender {
                Some(sender) => net.send(sender, msg),
                None => Err(Error::OutputNotConnected(port.to_owned())),
            },
            None => Err(Error::PortNotFound(port.to_owned())),
        }
    }

    /// Sends `msg` on the element `element` of the array output `port`.
    pub fn send_array(&self, net: &mut Channels, port: &str, element: &str, msg: Msg) -> (r: Result<
        (),
        Error,
    >)
        requires
            self.wf(),
        ensures
            final(net)@ == sent(old(net)@, self@.array_target(port@, element@), msg).0,
            agrees(r, sent(old(net)@, self@.array_target(port@, element@), msg).1),
    {
        match self.outarr.get(port) {
            Some(arr) => match arr.elements.get(element) {
                Some(sender) => net.send(sender, msg),
                None => Err(Error::OutputNotConnected(element.to_owned())),
            },
            None => Err(Error::PortNotFound(port.to_owned())),
        }
    }

    /// Sends `msg` on `port` by its routing tag: to the element of the array
    /// output `port` whose key is the tag, if there is one, and else on the
    /// scalar output `port`.
    pub fn send_action(&self, net: &mut Channels, port: &str, msg: Msg) -> (r: Result<(), Error>)
        requires
            self.wf(),
        ensures
            final(net)@ == sent(old(net)@, self@.route(port@, msg@.action), msg).0,
            agrees(r, sent(old(net)@, self@.route(port@, msg@.action), msg).1),
    {
        match &msg.action {
            Some(tag) => match self.outarr.get(port) {
                Some(arr) => match arr.elements.get(tag.as_str()) {
                    Some(sender) => { return net.send(sender, msg); },
                    None => {},
                },
                None => {},
            },
            None => {},
        }
        self.send(net, port, msg)
    }

    /// Reads the configuration port without waiting: consumes what waits
    /// there and returns a copy of the latest setting, if one ever arrived.
    /// An agent without a configuration port has no setting.
    pub fn try_recv_option(&self, net: &mut Channels) -> (r: Option<Msg>)
        requires
            self.wf(),
        ensures
            final(net)@ == settled(old(net)@, self@.option),
            match latest_setting(final(net)@, self@.option) {
                Some(l) => r.is_some() && r.unwrap()@ == l@,
                None => r.is_none(),
            },
    {
        match &self.option {
            Some(receiver) => net.try_recv_option(receiver),
            None => None,
        }
    }

    /// Reads the configuration port as [`PortSet::try_recv_option`] does, and
    /// fails where there is no setting to return.
    pub fn recv_option(&self, net: &mut Channels) -> (r: Result<Msg, Error>)
        requires
            self.wf(),
        ensures
            final(net)@ == settled(old(net)@, self@.option),
            match latest_setting(final(net)@, self@.option) {
                Some(l) => r.is_ok() && r.unwrap()@ == l@,
                None => r.is_err() && r.unwrap_err()@ == (if self@.option.is_none() {
                    ErrorView::PortNotFound("option"@)
                } else if self@.option.unwrap().chan >= old(net)@.chans.len() {
                    ErrorView::ChannelClosed
                } else {
                    ErrorView::ChannelEmpty
                }),
            },
    {
        match &self.option {
            Some(receiver) => net.recv_option(receiver),
            None => Err(Error::PortNotFound("option".to_owned())),
        }
    }

    /// Takes the oldest message that waits on the aggregation port.
    pub fn recv_accumulator(&self, net: &mut Channels) -> (r: Result<Msg, Error>)
        requires
            self.wf(),
        ensures
            final(net)@ == received(old(net)@, self@.accumulator_end()).0,
            agrees(r, received(old(net)@, self@.accumulator_end()).1),
    {
        match &self.accumulator {
            Some(receiver) => net.recv(receiver),
            None => Err(Error::PortNotFound("accumulator".to_owned())),
        }
    }

    /// Sends `msg` to the agent's own aggregation port.
    pub fn send_accumulator(&self, net: &mut Channels, msg: Msg) -> (r: Result<(), Error>)
        requires
            self.wf(),
        ensures
            final(net)@ == sent(old(net)@, self@.accumulator_end(), msg).0,
            agrees(r, sent(old(net)@, self@.accumulator_end(), msg).1),
    {
        match &self.accumulator_out {
            Some(sender) => net.send(sender, msg),
            None => Err(Error::PortNotFound("accumulator".to_owned())),
        }
    }

    /// Whether a channel is installed in the scalar output `port`.
    pub fn is_connected(&self, port: &str) -> (r: Result<bool, Error>)
        requires
            self.wf(),
        ensures
            match r {
                Ok(b) => self@.outputs.contains_key(port@) && b == self@.outputs[port@].sender.is_some(),
                Err(e) => !self@.outputs.contains_key(port@) && e@ == ErrorView::PortNotFound(port@),
            },
    {
        match self.output.get(port) {
            Some(out) => Ok(out.sender.is_some()),
            None => Err(Error::PortNotFound(port.to_owned())),
        }
    }

    /// Whether a channel is installed under `element` in the array output
    /// `port`.
    pub fn is_array_connected(&self, port: &str, element: &str) -> (r: Result<bool, Error>)
        requires
            self.wf(),
        ensures
            match r {
                Ok(b) => self@.outarr.contains_key(port@) && b
                    == self@.outarr[port@].elements.contains_key(element@),
                Err(e) => !self@.outarr.contains_key(port@) && e@ == ErrorView::PortNotFound(port@),
            },
    {
        match self.outarr.get(port) {
            Some(arr) => Ok(arr.elements.contains_key(element)),
            None => Err(Error::PortNotFound(port.to_owned())),
        }
    }

    /// Whether the array input `port` has the element `element`.
    pub fn has_inarr_element(&self, port: &str, element: &str) -> (r: Result<bool, Error>)
        requires
            self.wf(),
        ensures
            match r {
                Ok(b) => self@.inarr.contains_key(port@) && b
                    == self@.inarr[port@].elements.contains_key(element@),
                Err(e) => !self@.inarr.contains_key(port@) && e@ == ErrorView::PortNotFound(port@),
            },
    {
        match self.inarr.get(port) {
            Some(arr) => Ok(arr.elements.contains_key(element)),
            None => Err(Error::PortNotFound(port.to_owned())),
        }
    }

    /// The bundle's tables are sound, and the two ends that the agent holds of
    /// its aggregation channel belong together.
    pub closed spec fn wf(&self) -> bool {
        &&& self.input.wf()
        &&& self.inarr.wf()
        &&& self.output.wf()
        &&& self.outarr.wf()
        &&& forall|a: ArrayPort<MsgReceiver>| #[trigger]
            self.inarr.values().contains(a) ==> a.elements.wf()
        &&& forall|a: ArrayPort<MsgSender>| #[trigger]
            self.outarr.values().contains(a) ==> a.elements.wf()
        &&& match (self.accumulator, self.accumulator_out) {
            (Some(r), Some(s)) => r@ == s@,
            (None, None) => true,
            _ => false,
        }
    }
}

/// Keyed routing: a message whose routing tag is the key of an element of
/// the array output `port` goes to that element's channel; with any other
/// tag, or none, it goes where the scalar output `port` leads.
pub proof fn lemma_route_by_tag(ports: PortsView, port: Seq<char>, action: Option<Seq<char>>)
    ensures
        action.is_some() && ports.outarr.contains_key(port)
            && ports.outarr[port].elements.contains_key(action.unwrap()) ==> ports.route(
            port,
            action,
        ) == ports.array_target(port, action.unwrap()),
        !(action.is_some() && ports.outarr.contains_key(port)
            && ports.outarr[port].elements.contains_key(action.unwrap())) ==> ports.route(
            port,
            action,
        ) == ports.output_target(port),
{
}

/// Installing a handle of the right schema in a scalar output keeps every
/// port, with its schema, as the module declares it, and keeps every
/// installed handle on the schema of its port.
pub proof fn lemma_connect_keeps_types(
    ports: PortsView,
    module: &Module,
    port: Seq<char>,
    sender: Endpoint,
)
    requires
        ports.declared_by(module),
        ports.well_typed(),
        ports.outputs.contains_key(port),
        sender.schema == ports.outputs[port].schema,
    ensures
        ports.connect(port, sender).declared_by(module),
        ports.connect(port, sender).well_typed(),
        ports.connect(port, sender).senders() == ports.senders(),
{
    let after = ports.connect(port, sender);
    assert forall|n: Seq<char>| #[trigger]
        after.outputs.contains_key(n) <==> lookup(module.outputs@, n).is_some() by {
        assert(ports.outputs.contains_key(n) <==> lookup(module.outputs@, n).is_some());
    }
    assert forall|n: Seq<char>| #[trigger] after.outputs.contains_key(n) implies after.outputs[n].schema
        == lookup(module.outputs@, n).unwrap() by {
        assert(ports.outputs.contains_key(n));
    }
    assert forall|p: Seq<char>| #[trigger]
        after.outputs.contains_key(p) && after.outputs[p].sender.is_some() implies after.outputs[p].sender.unwrap().schema
        == after.outputs[p].schema by {
        if p != port {
            assert(ports.outputs.contains_key(p));
        }
    }
}

/// Installing a handle of the right schema in an element of an array output
/// keeps every port, with its schema, as the module declares it, and keeps
/// every installed handle on the schema of its port.
pub proof fn lemma_connect_array_keeps_types(
    ports: PortsView,
    module: &Module,
    port: Seq<char>,
    element: Seq<char>,
    sender: Endpoint,
)
    requires
        ports.declared_by(module),
        ports.well_typed(),
        ports.outarr.contains_key(port),
        sender.schema == ports.outarr[port].schema,
    ensures
        ports.connect_array(port, element, sender).declared_by(module),
        ports.connect_array(port, element, sender).well_typed(),
        ports.connect_array(port, element, sender).senders() == ports.senders(),
{
    let after = ports.connect_array(port, element, sender);
    assert forall|n: Seq<char>| #[trigger]
        after.outarr.contains_key(n) <==> lookup(module.outarr@, n).is_some() by {
        assert(ports.outarr.contains_key(n) <==> lookup(module.outarr@, n).is_some());
    }
    assert forall|n: Seq<char>| #[trigger] after.outarr.contains_key(n) implies after.outarr[n].schema
        == lookup(module.outarr@, n).unwrap() by {
        assert(ports.outarr.contains_key(n));
    }
    assert forall|p: Seq<char>, k: Seq<char>|
        after.outarr.contains_key(p) && #[trigger] after.outarr[p].elements.contains_key(
            k,
        ) implies after.outarr[p].elements[k].schema == after.outarr[p].schema by {
        if p != port {
            assert(ports.outarr[p].elements.contains_key(k));
        } else if k != element {
            assert(ports.outarr[p].elements.contains_key(k));
        }
    }
}

/// Installing a handle of the right schema in an element of an array input
/// keeps every port, with its schema, as the module declares it, and keeps
/// every installed handle on the schema of its port.
pub proof fn lemma_add_inarr_element_keeps_types(
    ports: PortsView,
    module: &Module,
    port: Seq<char>,
    element: Seq<char>,
    recv: Endpoint,
)
    requires
        ports.declared_by(module),
        ports.well_typed(),
        ports.inarr.contains_key(port),
        recv.schema == ports.inarr[port].schema,
    ensures
        ports.add_inarr_element(port, element, recv).declared_by(module),
        ports.add_inarr_element(port, element, recv).well_typed(),
        ports.add_inarr_element(port, element, recv).senders() == ports.senders(),
{
    let after = ports.add_inarr_element(port, element, recv);
    assert forall|n: Seq<char>| #[trigger]
        after.inarr.contains_key(n) <==> lookup(module.inarr@, n).is_some() by {
        assert(ports.inarr.contains_key(n) <==> lookup(module.inarr@, n).is_some());
    }
    assert forall|n: Seq<char>| #[trigger] after.inarr.contains_key(n) implies after.inarr[n].schema
        == lookup(module.inarr@, n).unwrap() by {
        assert(ports.inarr.contains_key(n));
    }
    assert forall|p: Seq<char>, k: Seq<char>|
        after.inarr.contains_key(p) && #[trigger] after.inarr[p].elements.contains_key(
            k,
        ) implies after.inarr[p].elements[k].schema == after.inarr[p].schema by {
        if p != port {
            assert(ports.inarr[p].elements.contains_key(k));
        } else if k != element {
            assert(ports.inarr[p].elements.contains_key(k));
        }
    }
}

/// What sending `msg` to `target` does to the fabric `net`, and what the
/// sender is told: a message to a channel of the fabric is delivered, any
/// other send fails and changes nothing.
pub open spec fn sent(net: ChannelsView, target: Result<Endpoint, ErrorView>, msg: Msg) -> (
    ChannelsView,
    Result<(), ErrorView>,
) {
    match target {
        Ok(to) => if to.chan < net.chans.len() {
            (net.deliver(to.chan as int, msg), Ok(()))
        } else {
            (net, Err(ErrorView::ChannelClosed))
        },
        Err(e) => (net, Err(e)),
    }
}

/// What taking a message from `source` does to the fabric `net`, and what the
/// reader gets: the oldest message that waits in the channel, if there is one.
pub open spec fn received(net: ChannelsView, source: Result<Endpoint, ErrorView>) -> (
    ChannelsView,
    Result<Msg, ErrorView>,
) {
    match source {
        Ok(from) => if from.chan >= net.chans.len() {
            (net, Err(ErrorView::ChannelClosed))
        } else if net.chans[from.chan as int].queue.len() == 0 {
            (net, Err(ErrorView::ChannelEmpty))
        } else {
            (net.take(from.chan as int), Ok(net.chans[from.chan as int].queue[0]))
        },
        Err(e) => (net, Err(e)),
    }
}

/// The fabric `net` after the channel of the configuration port `option` was
/// read as a setting.
pub open spec fn settled(net: ChannelsView, option: Option<Endpoint>) -> ChannelsView {
    match option {
        Some(end) => if end.chan < net.chans.len() {
            net.settle(end.chan as int)
        } else {
            net
        },
        None => net,
    }
}

/// The latest setting that the channel of the configuration port `option`
/// holds in `net`.
pub open spec fn latest_setting(net: ChannelsView, option: Option<Endpoint>) -> Option<Msg> {
    match option {
        Some(end) => if end.chan < net.chans.len() {
            net.chans[end.chan as int].latest
        } else {
            None
        },
        None => None,
    }
}

/// The outcome `r` of an operation is the one that `expected` describes.
pub open spec fn agrees<T>(r: Result<T, Error>, expected: Result<T, ErrorView>) -> bool {
    match (r, expected) {
        (Ok(a), Ok(b)) => a == b,
        (Err(e), Err(f)) => e@ == f,
        _ => false,
    }
}

/// The channels that building an agent of kind `module` for `id` opens, in
/// the order in which it opens them: the configuration port, the aggregation
/// port, then the scalar inputs as declared. Only the scalar inputs wake the
/// agent.
pub open spec fn fresh_channels(module: &Module, id: usize) -> Seq<ChannelView> {
    let option = if module.option.is_some() {
        seq![
            ChannelView {
                owner: id,
                must_sched: false,
                schema: module.option.unwrap()@,
                queue: Seq::empty(),
                latest: None,
            },
        ]
    } else {
        Seq::empty()
    };
    let accumulator = if module.accumulator.is_some() {
        seq![
            ChannelView {
                owner: id,
                must_sched: false,
                schema: module.accumulator.unwrap()@,
                queue: Seq::empty(),
                latest: None,
            },
        ]
    } else {
        Seq::empty()
    };
    option + accumulator + Seq::new(
        module.inputs@.len(),
        |i: int|
            ChannelView {
                owner: id,
                must_sched: true,
                schema: module.inputs@[i].contract@,
                queue: Seq::empty(),
                latest: None,
            },
    )
}

/// The number of channels that come before those of the scalar inputs.
pub open spec fn reserved(module: &Module) -> int {
    (if module.option.is_some() {
        1int
    } else {
        0int
    }) + (if module.accumulator.is_some() {
        1int
    } else {
        0int
    })
}

/// The channel of the scalar input `name` of an agent whose channels start
/// at number `base`.
pub open spec fn fresh_input(module: &Module, base: int, name: Seq<char>) -> Endpoint {
    Endpoint {
        chan: (base + reserved(module) + position(module.inputs@, name)) as usize,
        schema: lookup(module.inputs@, name).unwrap(),
    }
}

/// The channel of the configuration port.
pub open spec fn fresh_option(module: &Module, base: int) -> Endpoint {
    Endpoint { chan: base as usize, schema: module.option.unwrap()@ }
}

/// The channel of the aggregation port.
pub open spec fn fresh_accumulator(module: &Module, base: int) -> Endpoint {
    Endpoint {
        chan: (base + if module.option.is_some() {
            1int
        } else {
            0int
        }) as usize,
        schema: module.accumulator.unwrap()@,
    }
}

/// The array ports that `ports` declares, none with an element yet.
pub open spec fn fresh_arrays(ports: Seq<PortDecl>) -> Map<Seq<char>, ArrayView> {
    Map::new(
        |n: Seq<char>| lookup(ports, n).is_some(),
        |n: Seq<char>| ArrayView { schema: lookup(ports, n).unwrap(), elements: Map::empty() },
    )
}

/// The scalar outputs that `ports` declares, none connected yet.
pub open spec fn fresh_outputs(ports: Seq<PortDecl>) -> Map<Seq<char>, OutputView> {
    Map::new(
        |n: Seq<char>| lookup(ports, n).is_some(),
        |n: Seq<char>| OutputView { schema: lookup(ports, n).unwrap(), sender: None },
    )
}

/// The port bundle of a newly built agent of kind `module`, whose channels
/// start at number `base`.
pub open spec fn fresh_ports(module: &Module, id: usize, base: int) -> PortsView {
    PortsView {
        id,
        inputs: Map::new(
            |n: Seq<char>| lookup(module.inputs@, n).is_some(),
            |n: Seq<char>| fresh_input(module, base, n),
        ),
        option: if module.option.is_some() {
            Some(fresh_option(module, base))
        } else {
            None
        },
        accumulator: if module.accumulator.is_some() {
            Some(fresh_accumulator(module, base))
        } else {
            None
        },
        inarr: fresh_arrays(module.inarr@),
        outputs: fresh_outputs(module.outputs@),
        outarr: fresh_arrays(module.outarr@),
    }
}

/// Every handle through which a newly built agent can be sent to leads to
/// one of the channels that were opened for it.
pub proof fn lemma_fresh_senders_lead_to_fresh_channels(
    module: &Module,
    id: usize,
    base: int,
    name: Seq<char>,
)
    requires
        module.valid(),
        0 <= base,
        base + fresh_channels(module, id).len() <= usize::MAX,
        fresh_ports(module, id, base).senders().contains_key(name),
    ensures
        base <= fresh_ports(module, id, base).senders()[name].chan < base + fresh_channels(
            module,
            id,
        ).len(),
{
    assert(fresh_channels(module, id).len() == reserved(module) + module.inputs@.len());
    if lookup(module.inputs@, name).is_some() {
        lemma_lookup_some(module.inputs@, name);
        let at = position(module.inputs@, name);
        assert(0 <= at < module.inputs@.len());
    }
}

/// Builds the array ports that `ports` declares.
pub(crate) fn declare_arrays<H: View<V = Endpoint>>(ports: &Vec<PortDecl>) -> (t: Table<ArrayPort<H>>)
    requires
        distinct(ports@),
    ensures
        t.wf(),
        t@ == fresh_arrays(ports@),
        forall|a: ArrayPort<H>| #[trigger] t.values().contains(a) ==> a.elements.wf(),
{
    let mut t: Table<ArrayPort<H>> = Table::new();
    let mut i: usize = 0;
    while i < ports.len()
        invariant
            i <= ports.len(),
            distinct(ports@),
            t.wf(),
            forall|a: ArrayPort<H>| #[trigger] t.values().contains(a) ==> a.elements.wf(),
            forall|n: Seq<char>|
                t@.contains_key(n) <==> exists|j: int|
                    0 <= j < i && (#[trigger] ports@[j]).name@ == n,
            forall|j: int|
                0 <= j < i ==> t@[(#[trigger] ports@[j]).name@] == (ArrayView {
                    schema: ports@[j].contract@,
                    elements: Map::empty(),
                }),
        decreases ports.len() - i,
    {
        let ghost before = t;
        let port = ArrayPort { schema: ports[i].contract.clone(), elements: Table::new() };
        t.insert(ports[i].name.clone(), port);
        proof {
            assert forall|n: Seq<char>|
                t@.contains_key(n) <==> exists|j: int|
                    0 <= j < i + 1 && (#[trigger] ports@[j]).name@ == n by {
                if before@.contains_key(n) {
                    let j = choose|j: int| 0 <= j < i && (#[trigger] ports@[j]).name@ == n;
                    assert(0 <= j < i + 1 && ports@[j].name@ == n);
                }
                if n == ports@[i as int].name@ {
                    assert(0 <= i < i + 1 && ports@[i as int].name@ == n);
                }
            }
            assert forall|j: int| 0 <= j < i + 1 implies t@[(#[trigger] ports@[j]).name@] == (
            ArrayView { schema: ports@[j].contract@, elements: Map::empty() }) by {
                if j < i {
                    assert(ports@[j].name@ != ports@[i as int].name@);
                }
            }
        }
        i += 1;
    }
    proof {
        assert forall|n: Seq<char>| t@.contains_key(n) <==> lookup(ports@, n).is_some() by {
            lemma_lookup_some(ports@, n);
        }
        assert forall|n: Seq<char>| #[trigger] t@.contains_key(n) implies t@[n] == fresh_arrays(
            ports@,
        )[n] by {
            let j = choose|j: int| 0 <= j < ports.len() && (#[trigger] ports@[j]).name@ == n;
            lemma_distinct_lookup(ports@, j);
        }
        assert(t@ =~= fresh_arrays(ports@));
    }
    t
}

/// Builds the scalar outputs that `ports` declares.
fn declare_outputs(ports: &Vec<PortDecl>) -> (t: Table<OutputPort>)
    requires
        distinct(ports@),
    ensures
        t.wf(),
        t@ == fresh_outputs(ports@),
{
    let mut t: Table<OutputPort> = Table::new();
    let mut i: usize = 0;
    while i < ports.len()
        invariant
            i <= ports.len(),
            distinct(ports@),
            t.wf(),
            forall|n: Seq<char>|
                t@.contains_key(n) <==> exists|j: int|
                    0 <= j < i && (#[trigger] ports@[j]).name@ == n,
            forall|j: int|
                0 <= j < i ==> t@[(#[trigger] ports@[j]).name@] == (OutputView {
                    schema: ports@[j].contract@,
                    sender: None,
                }),
        decreases ports.len() - i,
    {
        let ghost before = t;
        let port = OutputPort { schema: ports[i].contract.clone(), sender: None };
        t.insert(ports[i].name.clone(), port);
        proof {
            assert forall|n: Seq<char>|
                t@.contains_key(n) <==> exists|j: int|
                    0 <= j < i + 1 && (#[trigger] ports@[j]).name@ == n by {
                if before@.contains_key(n) {
                    let j = choose|j: int| 0 <= j < i && (#[trigger] ports@[j]).name@ == n;
                    assert(0 <= j < i + 1 && ports@[j].name@ == n);
                }
                if n == ports@[i as int].name@ {
                    assert(0 <= i < i + 1 && ports@[i as int].name@ == n);
                }
            }
            assert forall|j: int| 0 <= j < i + 1 implies t@[(#[trigger] ports@[j]).name@] == (
            OutputView { schema: ports@[j].contract@, sender: None }) by {
                if j < i {
                    assert(ports@[j].name@ != ports@[i as int].name@);
                }
            }
        }
        i += 1;
    }
    proof {
        assert forall|n: Seq<char>| t@.contains_key(n) <==> lookup(ports@, n).is_some() by {
            lemma_lookup_some(ports@, n);
        }
        assert forall|n: Seq<char>| #[trigger] t@.contains_key(n) implies t@[n] == fresh_outputs(
            ports@,
        )[n] by {
            let j = choose|j: int| 0 <= j < ports.len() && (#[trigger] ports@[j]).name@ == n;
            lemma_distinct_lookup(ports@, j);
        }
        assert(t@ =~= fresh_outputs(ports@));
    }
    t
}

/// The contract between an agent and the coordinator.
///
/// The coordinator asks whether the agent can be woken, installs handles in
/// its output and array ports while the graph is wired, and runs one step of
/// it whenever it is scheduled.
pub trait Agent {
    /// The agent's port bundle is sound.
    spec fn wf(&self) -> bool;

    /// The agent's ports and what is installed in them.
    spec fn ports(&self) -> PortsView;

    /// Whether the agent declares at least one scalar or array input.
    fn is_input_ports(&self) -> (b: bool)
        requires
            self.wf(),
        ensures
            b == self.ports().has_inputs(),
    ;

    /// Installs `sender` in the scalar output `port`. The handle has to carry
    /// the schema of the port; the coordinator checks this before it calls.
    fn connect(&mut self, port: &str, sender: MsgSender) -> (r: Result<(), Error>)
        requires
            old(self).wf(),
            old(self).ports().outputs.contains_key(port@) ==> sender@.schema == old(
                self,
            ).ports().outputs[port@].schema,
        ensures
            final(self).wf(),
            match r {
                Ok(()) => old(self).ports().outputs.contains_key(port@) && final(self).ports() == old(
                    self,
                ).ports().connect(port@, sender@),
                Err(e) => !old(self).ports().outputs.contains_key(port@) && e@
                    == ErrorView::PortNotFound(port@) && final(self).ports() == old(self).ports(),
            },
    ;

    /// Installs `sender` under the key `element` in the array output `port`,
    /// in place of what was installed under that key before.
    fn connect_array(&mut self, port: &str, element: String, sender: MsgSender) -> (r: Result<
        (),
        Error,
    >)
        requires
            old(self).wf(),
            old(self).ports().outarr.contains_key(port@) ==> sender@.schema == old(
                self,
            ).ports().outarr[port@].schema,
        ensures
            final(self).wf(),
            match r {
                Ok(()) => old(self).ports().outarr.contains_key(port@) && final(self).ports() == old(
                    self,
                ).ports().connect_array(port@, element@, sender@),
                Err(e) => !old(self).ports().outarr.contains_key(port@) && e@
                    == ErrorView::PortNotFound(port@) && final(self).ports() == old(self).ports(),
            },
    ;

    /// Installs `recv` under the key `element` in the array input `port`.
    fn add_inarr_element(&mut self, port: &str, element: String, recv: MsgReceiver) -> (r: Result<
        (),
        Error,
    >)
        requires
            old(self).wf(),
            old(self).ports().inarr.contains_key(port@) ==> recv@.schema == old(
                self,
            ).ports().inarr[port@].schema,
        ensures
            final(self).wf(),
            match r {
                Ok(()) => old(self).ports().inarr.contains_key(port@) && final(self).ports() == old(
                    self,
                ).ports().add_inarr_element(port@, element@, recv@),
                Err(e) => !old(self).ports().inarr.contains_key(port@) && e@
                    == ErrorView::PortNotFound(port@) && final(self).ports() == old(self).ports(),
            },
    ;

    /// Runs one step of the agent's own logic on the channels of its graph.
    /// A step leaves the agent's ports as they are wired.
    fn run(&mut self, net: &mut Channels) -> (r: Result<Signal, Error>)
        requires
            old(self).wf(),
        ensures
            final(self).wf(),
            final(self).ports() == old(self).ports(),
    ;
}

/// What one kind of agent does in a step.
///
/// The step reads and writes through `ports`, on the channels in `net`. It
/// answers [`Signal::Continue`] to be run again when it is next woken and
/// [`Signal::End`] to be retired; an error retires the agent as well.
pub trait Logic: Sized {
    /// What this logic says of its own steps: a step that starts in the state
    /// `self`, on the port bundle `ports` and the channels `net`, may leave
    /// the state `after` and the channels `left` and answer `outcome`. A
    /// logic that says nothing of its steps admits every step.
    open spec fn steps_to(
        &self,
        after: Self,
        ports: PortsView,
        net: ChannelsView,
        left: ChannelsView,
        outcome: Result<Signal, Error>,
    ) -> bool {
        true
    }

    /// Takes one step on the port bundle `ports` and the channels `net`.
    fn run(&mut self, ports: &PortSet, net: &mut Channels) -> (r: Result<Signal, Error>)
        requires
            ports.wf(),
        ensures
            old(self).steps_to(*final(self), ports@, old(net)@, final(net)@, r),
    ;
}

/// An agent: a port bundle and the state of its logic.
pub struct ThisAgent<L> {
    ports: PortSet,
    state: L,
}

impl<L: Logic> ThisAgent<L> {
    /// Builds an agent of kind `module` with identity `id`, and opens the
    /// channels of its scalar inputs, of its configuration port and of its
    /// aggregation port in `net`. Returns the agent with the send-handle of
    /// each of these ports, by the port's name. A declaration that is not
    /// valid is refused, and then no channel is opened.
    pub fn new(module: &Module, id: usize, net: &mut Channels, state: L) -> (r: Result<
        (ThisAgent<L>, Table<MsgSender>),
        Error,
    >)
        ensures
            match r {
                Ok((agent, senders)) => {
                    &&& module.valid()
                    &&& agent.wf()
                    &&& agent.ports() == fresh_ports(module, id, old(net)@.chans.len() as int)
                    &&& agent.ports().well_typed()
                    &&& agent.ports().declared_by(module)
                    &&& agent.logic() == state
                    &&& senders.wf()
                    &&& senders@ == agent.ports().senders()
                    &&& final(net)@.chans == old(net)@.chans + fresh_channels(module, id)
                    &&& final(net)@.notices == old(net)@.notices
                },
                Err(e) => !module.valid() && e@ == ErrorView::ModuleLoadFailure(module.name@)
                    && final(net)@ == old(net)@,
            },
    {
        if !module.is_valid() {
            return Err(Error::ModuleLoadFailure(module.name.clone()));
        }
        proof {
            reveal_strlit("option");
            reveal_strlit("accumulator");
            assert("option"@.len() != "accumulator"@.len());
        }
        let ghost base = old(net)@.chans.len() as int;
        let ghost k = reserved(module);
        let ghost plan = fresh_channels(module, id);
        let mut senders: Table<MsgSender> = Table::new();
        let mut option: Option<MsgReceiver> = None;
        match &module.option {
            Some(schema) => {
                let (r, s) = MsgReceiver::new(net, id, schema.as_str(), false);
                senders.insert("option".to_owned(), s);
                option = Some(r);
            },
            None => {},
        }
        let mut accumulator: Option<MsgReceiver> = None;
        let mut accumulator_out: Option<MsgSender> = None;
        match &module.accumulator {
            Some(schema) => {
                let (r, s) = MsgReceiver::new(net, id, schema.as_str(), false);
                senders.insert("accumulator".to_owned(), s.clone());
                accumulator = Some(r);
                accumulator_out = Some(s);
            },
            None => {},
        }
        let ghost mid = net@;
        proof {
            assert(mid.chans =~= old(net)@.chans + plan.take(k));
        }
        let mut input: Table<MsgReceiver> = Table::new();
        let mut i: usize = 0;
        while i < module.inputs.len()
            invariant
                i <= module.inputs.len(),
                module.valid(),
                base == old(net)@.chans.len(),
                k == reserved(module),
                plan == fresh_channels(module, id),
                "option"@ != "accumulator"@,
                input.wf(),
                senders.wf(),
                net@.notices == old(net)@.notices,
                net@.chans.len() == base + k + i,
                net@.chans == old(net)@.chans + plan.take(k + i),
                forall|n: Seq<char>|
                    input@.contains_key(n) <==> exists|j: int|
                        0 <= j < i && (#[trigger] module.inputs@[j]).name@ == n,
                forall|j: int|
                    0 <= j < i ==> input@[(#[trigger] module.inputs@[j]).name@] == (Endpoint {
                        chan: (base + k + j) as usize,
                        schema: module.inputs@[j].contract@,
                    }),
                forall|n: Seq<char>|
                    senders@.contains_key(n) <==> (exists|j: int|
                        0 <= j < i && (#[trigger] module.inputs@[j]).name@ == n) || (
                    module.option.is_some() && n == "option"@) || (module.accumulator.is_some()
                        && n == "accumulator"@),
                forall|j: int|
                    0 <= j < i ==> senders@[(#[trigger] module.inputs@[j]).name@] == (Endpoint {
                        chan: (base + k + j) as usize,
                        schema: module.inputs@[j].contract@,
                    }),
                module.option.is_some() ==> senders@["option"@] == fresh_option(module, base),
                module.accumulator.is_some() ==> senders@["accumulator"@] == fresh_accumulator(
                    module,
                    base,
                ),
            decreases module.inputs.len() - i,
        {
            let ghost input_before = input;
            let ghost senders_before = senders;
            let ghost net_before = net@;
            let decl = &module.inputs[i];
            let (r, s) = MsgReceiver::new(net, id, decl.contract.as_str(), true);
            input.insert(decl.name.clone(), r);
            senders.insert(decl.name.clone(), s);
            proof {
                let name = module.inputs@[i as int].name@;
                lemma_lookup_some(module.inputs@, "option"@);
                lemma_lookup_some(module.inputs@, "accumulator"@);
                assert(module.option.is_some() ==> name != "option"@);
                assert(module.accumulator.is_some() ==> name != "accumulator"@);
                assert(plan[k + i] == ChannelView {
                    owner: id,
                    must_sched: true,
                    schema: module.inputs@[i as int].contract@,
                    queue: Seq::empty(),
                    latest: None,
                });
                assert(net@.chans =~= old(net)@.chans + plan.take(k + i + 1));
                assert forall|n: Seq<char>|
                    input@.contains_key(n) <==> exists|j: int|
                        0 <= j < i + 1 && (#[trigger] module.inputs@[j]).name@ == n by {
                    if input_before@.contains_key(n) {
                        let j = choose|j: int|
                            0 <= j < i && (#[trigger] module.inputs@[j]).name@ == n;
                        assert(0 <= j < i + 1 && module.inputs@[j].name@ == n);
                    }
                    if n == name {
                        assert(0 <= i < i + 1 && module.inputs@[i as int].name@ == n);
                    }
                }
                assert forall|n: Seq<char>|
                    senders@.contains_key(n) <==> (exists|j: int|
                        0 <= j < i + 1 && (#[trigger] module.inputs@[j]).name@ == n) || (
                    module.option.is_some() && n == "option"@) || (module.accumulator.is_some()
                        && n == "accumulator"@) by {
                    if exists|j: int| 0 <= j < i && (#[trigger] module.inputs@[j]).name@ == n {
                        let j = choose|j: int|
                            0 <= j < i && (#[trigger] module.inputs@[j]).name@ == n;
                        assert(0 <= j < i + 1 && module.inputs@[j].name@ == n);
                    }
                    if n == name {
                        assert(0 <= i < i + 1 && module.inputs@[i as int].name@ == n);
                    }
                }
                assert forall|j: int| 0 <= j < i + 1 implies input@[(
                #[trigger] module.inputs@[j]).name@] == (Endpoint {
                    chan: (base + k + j) as usize,
                    schema: module.inputs@[j].contract@,
                }) && senders@[module.inputs@[j].name@] == (Endpoint {
                    chan: (base + k + j) as usize,
                    schema: module.inputs@[j].contract@,
                }) by {
                    if j < i {
                        assert(module.inputs@[j].name@ != module.inputs@[i as int].name@);
                    }
                }
            }
            i += 1;
        }
        let inarr = declare_arrays::<MsgReceiver>(&module.inarr);
        let output = declare_outputs(&module.outputs);
        let outarr = declare_arrays::<MsgSender>(&module.outarr);
        let ports = PortSet { id, input, option, accumulator, accumulator_out, inarr, output, outarr };
        proof {
            assert(plan.take(k + i) =~= plan);
            assert forall|n: Seq<char>|
                input@.contains_key(n) <==> lookup(module.inputs@, n).is_some() by {
                lemma_lookup_some(module.inputs@, n);
            }
            assert forall|n: Seq<char>| #[trigger] input@.contains_key(n) implies input@[n]
                == fresh_input(module, base, n) && senders@[n] == fresh_input(module, base, n) by {
                let j = choose|j: int|
                    0 <= j < module.inputs.len() && (#[trigger] module.inputs@[j]).name@ == n;
                lemma_distinct_lookup(module.inputs@, j);
            }
            assert(ports@.inputs =~= fresh_ports(module, id, base).inputs);
            assert(ports@ == fresh_ports(module, id, base));
            assert(senders@ =~= ports@.senders());
        }
        Ok((ThisAgent { ports, state }, senders))
    }

    /// The state of the agent's logic.
    pub closed spec fn logic(&self) -> L {
        self.state
    }

    /// The state of the agent's logic.
    pub fn state(&self) -> (s: &L)
        ensures
            *s == self.logic(),
    {
        &self.state
    }

    /// The agent's port bundle.
    pub fn port_set(&self) -> (p: &PortSet)
        ensures
            p@ == self.ports(),
            p.wf() == self.wf(),
    {
        &self.ports
    }
}

impl<L: Logic> Agent for ThisAgent<L> {
    closed spec fn wf(&self) -> bool {
        self.ports.wf()
    }

    closed spec fn ports(&self) -> PortsView {
        self.ports@
    }

    fn is_input_ports(&self) -> (b: bool) {
        !self.ports.input.is_empty() || !self.ports.inarr.is_empty()
    }

    fn connect(&mut self, port: &str, sender: MsgSender) -> (r: Result<(), Error>)
        ensures
            final(self).logic() == old(self).logic(),
    {
        match self.ports.output.remove(port) {
            Some(out) => {
                let connected = OutputPort { schema: out.schema, sender: Some(sender) };
                self.ports.output.insert(port.to_owned(), connected);
                proof {
                    assert(self.ports@.outputs =~= old(self).ports@.connect(
                        port@,
                        sender@,
                    ).outputs);
                }
                Ok(())
            },
            None => {
                proof {
                    assert(self.ports@.outputs =~= old(self).ports@.outputs);
                }
                Err(Error::PortNotFound(port.to_owned()))
            },
        }
    }

    fn connect_array(&mut self, port: &str, element: String, sender: MsgSender) -> (r: Result<
        (),
        Error,
    >)
        ensures
            final(self).logic() == old(self).logic(),
    {
        match self.ports.outarr.remove(port) {
            Some(mut arr) => {
                arr.elements.insert(element, sender);
                self.ports.outarr.insert(port.to_owned(), arr);
                proof {
                    assert(self.ports@.outarr =~= old(self).ports@.connect_array(
                        port@,
                        element@,
                        sender@,
                    ).outarr);
                }
                Ok(())
            },
            None => {
                proof {
                    assert(self.ports@.outarr =~= old(self).ports@.outarr);
                }
                Err(Error::PortNotFound(port.to_owned()))
            },
        }
    }

    fn add_inarr_element(&mut self, port: &str, element: String, recv: MsgReceiver) -> (r: Result<
        (),
        Error,
    >)
        ensures
            final(self).logic() == old(self).logic(),
    {
        match self.ports.inarr.remove(port) {
            Some(mut arr) => {
                arr.elements.insert(element, recv);
                self.ports.inarr.insert(port.to_owned(), arr);
                proof {
                    assert(self.ports@.inarr =~= old(self).ports@.add_inarr_element(
                        port@,
                        element@,
                        recv@,
                    ).inarr);
                }
                Ok(())
            },
            None => {
                proof {
                    assert(self.ports@.inarr =~= old(self).ports@.inarr);
                }
                Err(Error::PortNotFound(port.to_owned()))
            },
        }
    }

    /// Takes one step of the agent's logic on the agent's own ports and the
    /// channels `net`, and hands back what the step answered.
    fn run(&mut self, net: &mut Channels) -> (r: Result<Signal, Error>)
        ensures
            old(self).logic().steps_to(
                final(self).logic(),
                old(self).ports(),
                old(net)@,
                final(net)@,
                r,
            ),
    {
        self.state.run(&self.ports, net)
    }
}

} // verus!
