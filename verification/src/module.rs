//! The declaration of an agent kind: its ports with their schemas.
//!
//! A module names the scalar inputs, array inputs, scalar outputs and array
//! outputs of one kind of agent, each with the schema identifier of its
//! messages, and says whether the agent has a configuration port (`option`)
//! and an aggregation port (`accumulator`). The coordinator asks the module
//! for schemas and handles while it wires a graph.

use crate::ports::{Channels, Endpoint, MsgReceiver, MsgSender};
use crate::result::{Error, ErrorView};
use vstd::prelude::*;

verus! {

/// One declared port: its name and the schema identifier of its messages.
#[derive(Debug)]
pub struct PortDecl {
    pub name: String,
    pub contract: String,
}

impl PortDecl {
    /// Declares a port `name` that carries `contract`.
    pub fn new(name: &str, contract: &str) -> (d: PortDecl)
        ensures
            d.name@ == name@,
            d.contract@ == contract@,
    {
        PortDecl { name: name.to_owned(), contract: contract.to_owned() }
    }
}

/// The schema that the first declaration of `name` in `ports` gives it.
pub open spec fn lookup(ports: Seq<PortDecl>, name: Seq<char>) -> Option<Seq<char>>
    decreases ports.len(),
{
    if ports.len() == 0 {
        None
    } else if ports[0].name@ == name {
        Some(ports[0].contract@)
    } else {
        lookup(ports.drop_first(), name)
    }
}

/// No two declarations in `ports` share a name.
pub open spec fn distinct(ports: Seq<PortDecl>) -> bool {
    forall|i: int, j: int|
        0 <= i < j < ports.len() ==> (#[trigger] ports[i]).name@ != (#[trigger] ports[j]).name@
}

/// The place of a declaration that bears `name` in `ports`.
pub open spec fn position(ports: Seq<PortDecl>, name: Seq<char>) -> int {
    choose|i: int| 0 <= i < ports.len() && (#[trigger] ports[i]).name@ == name
}

/// Where no name occurs twice, each declaration is found at its own place
/// and decides the schema of its name.
pub proof fn lemma_distinct_lookup(ports: Seq<PortDecl>, at: int)
    requires
        distinct(ports),
        0 <= at < ports.len(),
    ensures
        position(ports, ports[at].name@) == at,
        lookup(ports, ports[at].name@) == Some(ports[at].contract@),
{
    let name = ports[at].name@;
    let p = position(ports, name);
    assert(0 <= p < ports.len() && ports[p].name@ == name);
    if p < at {
        assert(ports[p].name@ != ports[at].name@);
    } else if at < p {
        assert(ports[at].name@ != ports[p].name@);
    }
    assert forall|i: int| 0 <= i < at implies (#[trigger] ports[i]).name@ != name by {
        assert(ports[i].name@ != ports[at].name@);
    }
    lemma_lookup_first(ports, name, at);
}

/// A name that no declaration in `ports` bears has no schema there.
pub proof fn lemma_lookup_none(ports: Seq<PortDecl>, name: Seq<char>)
    requires
        forall|i: int| 0 <= i < ports.len() ==> (#[trigger] ports[i]).name@ != name,
    ensures
        lookup(ports, name).is_none(),
    decreases ports.len(),
{
    if ports.len() > 0 {
        let rest = ports.drop_first();
        assert forall|i: int| 0 <= i < rest.len() implies (#[trigger] rest[i]).name@ != name by {
            assert(rest[i] == ports[i + 1]);
        }
        lemma_lookup_none(rest, name);
    }
}

/// The first declaration that bears `name` decides its schema.
pub proof fn lemma_lookup_first(ports: Seq<PortDecl>, name: Seq<char>, at: int)
    requires
        0 <= at < ports.len(),
        ports[at].name@ == name,
        forall|i: int| 0 <= i < at ==> (#[trigger] ports[i]).name@ != name,
    ensures
        lookup(ports, name) == Some(ports[at].contract@),
    decreases ports.len(),
{
    if at > 0 {
        let rest = ports.drop_first();
        assert(ports[0].name@ != name);
        assert(rest[at - 1] == ports[at]);
        assert forall|i: int| 0 <= i < at - 1 implies (#[trigger] rest[i]).name@ != name by {
            assert(rest[i] == ports[i + 1]);
        }
        lemma_lookup_first(rest, name, at - 1);
    }
}

/// A name has a schema in `ports` exactly when a declaration bears it.
pub proof fn lemma_lookup_some(ports: Seq<PortDecl>, name: Seq<char>)
    ensures
        lookup(ports, name).is_some() <==> exists|i: int|
            0 <= i < ports.len() && (#[trigger] ports[i]).name@ == name,
    decreases ports.len(),
{
    if ports.len() > 0 {
        let rest = ports.drop_first();
        lemma_lookup_some(rest, name);
        if ports[0].name@ != name {
            if lookup(rest, name).is_some() {
                let i = choose|i: int| 0 <= i < rest.len() && (#[trigger] rest[i]).name@ == name;
                assert(ports[i + 1] == rest[i]);
            }
            if exists|i: int| 0 <= i < ports.len() && (#[trigger] ports[i]).name@ == name {
                let i = choose|i: int| 0 <= i < ports.len() && (#[trigger] ports[i]).name@ == name;
                assert(rest[i - 1] == ports[i]);
            }
        }
    }
}

/// Position of the first declaration of `name` in `ports`.
fn find_decl(ports: &Vec<PortDecl>, name: &String) -> (r: Option<usize>)
    ensures
        match r {
            Some(i) => i < ports.len() && ports[i as int].name@ == name@ && lookup(ports@, name@)
                == Some(ports[i as int].contract@),
            None => lookup(ports@, name@).is_none(),
        },
{
    let mut i: usize = 0;
    while i < ports.len()
        invariant
            i <= ports.len(),
            forall|j: int| 0 <= j < i ==> (#[trigger] ports@[j]).name@ != name@,
        decreases ports.len() - i,
    {
        if ports[i].name == *name {
            proof {
                lemma_lookup_first(ports@, name@, i as int);
            }
            return Some(i);
        }
        i += 1;
    }
    proof {
        lemma_lookup_none(ports@, name@);
    }
    None
}

/// Whether no two declarations in `ports` share a name.
fn names_distinct(ports: &Vec<PortDecl>) -> (b: bool)
    ensures
        b == distinct(ports@),
{
    let mut j: usize = 0;
    while j < ports.len()
        invariant
            j <= ports.len(),
            forall|a: int, b: int|
                0 <= a < b < j ==> (#[trigger] ports@[a]).name@ != (#[trigger] ports@[b]).name@,
        decreases ports.len() - j,
    {
        let mut i: usize = 0;
        while i < j
            invariant
                i <= j < ports.len(),
                forall|a: int| 0 <= a < i ==> (#[trigger] ports@[a]).name@ != ports@[j as int].name@,
            decreases j - i,
        {
            if ports[i].name == ports[j].name {
                return false;
            }
            i += 1;
        }
        j += 1;
    }
    true
}

/// The declaration of one kind of agent.
#[derive(Debug)]
pub struct Module {
    /// The name of the agent kind: the module file that holds it.
    pub name: String,
    /// Scalar input ports. A message that arrives on one wakes the agent.
    pub inputs: Vec<PortDecl>,
    /// Array input ports, whose elements are added while the graph is wired.
    pub inarr: Vec<PortDecl>,
    /// Scalar output ports.
    pub outputs: Vec<PortDecl>,
    /// Array output ports.
    pub outarr: Vec<PortDecl>,
    /// The schema of the configuration port `option`, if the agent has one.
    pub option: Option<String>,
    /// The schema of the aggregation port `accumulator`, if the agent has one.
    pub accumulator: Option<String>,
}

impl Module {
    /// The declaration can be used to build an agent: within each of the four
    /// lists no name occurs twice, and no scalar input takes the name of a
    /// configuration or aggregation port that the agent has.
    pub open spec fn valid(&self) -> bool {
        &&& distinct(self.inputs@)
        &&& distinct(self.inarr@)
        &&& distinct(self.outputs@)
        &&& distinct(self.outarr@)
        &&& self.option.is_some() ==> lookup(self.inputs@, "option"@).is_none()
        &&& self.accumulator.is_some() ==> lookup(self.inputs@, "accumulator"@).is_none()
    }

    /// The schema of the scalar input `port`: a declared input, else the
    /// configuration port, else the aggregation port.
    pub open spec fn input_schema(&self, port: Seq<char>) -> Option<Seq<char>> {
        if lookup(self.inputs@, port).is_some() {
            lookup(self.inputs@, port)
        } else if self.option.is_some() && port == "option"@ {
            Some(self.option.unwrap()@)
        } else if self.accumulator.is_some() && port == "accumulator"@ {
            Some(self.accumulator.unwrap()@)
        } else {
            None
        }
    }

    /// The schema of the array input `port`.
    pub open spec fn input_array_schema(&self, port: Seq<char>) -> Option<Seq<char>> {
        lookup(self.inarr@, port)
    }

    /// The schema of the scalar output `port`.
    pub open spec fn output_schema(&self, port: Seq<char>) -> Option<Seq<char>> {
        lookup(self.outputs@, port)
    }

    /// The schema of the array output `port`.
    pub open spec fn output_array_schema(&self, port: Seq<char>) -> Option<Seq<char>> {
        lookup(self.outarr@, port)
    }

    /// A declaration without ports for the agent kind `name`.
    pub fn new(name: &str) -> (m: Module)
        ensures
            m.name@ == name@,
            m.inputs@.len() == 0,
            m.inarr@.len() == 0,
            m.outputs@.len() == 0,
            m.outarr@.len() == 0,
            m.option.is_none(),
            m.accumulator.is_none(),
            m.valid(),
    {
        Module {
            name: name.to_owned(),
            inputs: Vec::new(),
            inarr: Vec::new(),
            outputs: Vec::new(),
            outarr: Vec::new(),
            option: None,
            accumulator: None,
        }
    }

    /// Whether the declaration can be used to build an agent.
    pub fn is_valid(&self) -> (b: bool)
        ensures
            b == self.valid(),
    {
        if !names_distinct(&self.inputs) || !names_distinct(&self.inarr) || !names_distinct(
            &self.outputs,
        ) || !names_distinct(&self.outarr) {
            return false;
        }
        if self.option.is_some() {
            let name = "option".to_owned();
            if find_decl(&self.inputs, &name).is_some() {
                return false;
            }
        }
        if self.accumulator.is_some() {
            let name = "accumulator".to_owned();
            if find_decl(&self.inputs, &name).is_some() {
                return false;
            }
        }
        true
    }

    /// The schema identifier of the scalar input `port`.
    pub fn get_schema_input(&self, port: &str) -> (r: Result<String, Error>)
        ensures
            match r {
                Ok(s) => self.input_schema(port@) == Some(s@),
                Err(e) => self.input_schema(port@).is_none() && e@ == ErrorView::PortNotFound(port@),
            },
    {
        let name = port.to_owned();
        match find_decl(&self.inputs, &name) {
            Some(i) => { return Ok(self.inputs[i].contract.clone()); },
            None => {},
        }
        match &self.option {
            Some(schema) => {
                if name == "option".to_owned() {
                    return Ok(schema.clone());
                }
            },
            None => {},
        }
        match &self.accumulator {
            Some(schema) => {
                if name == "accumulator".to_owned() {
                    return Ok(schema.clone());
                }
            },
            None => {},
        }
        Err(Error::PortNotFound(name))
    }

    /// The schema identifier of the array input `port`.
    pub fn get_schema_input_array(&self, port: &str) -> (r: Result<String, Error>)
        ensures
            match r {
                Ok(s) => self.input_array_schema(port@) == Some(s@),
                Err(e) => self.input_array_schema(port@).is_none() && e@ == ErrorView::PortNotFound(
                    port@,
                ),
            },
    {
        let name = port.to_owned();
        match find_decl(&self.inarr, &name) {
            Some(i) => Ok(self.inarr[i].contract.clone()),
            None => Err(Error::PortNotFound(name)),
        }
    }

    /// The schema identifier of the scalar output `port`.
    pub fn get_schema_output(&self, port: &str) -> (r: Result<String, Error>)
        ensures
            match r {
                Ok(s) => self.output_schema(port@) == Some(s@),
                Err(e) => self.output_schema(port@).is_none() && e@ == ErrorView::PortNotFound(port@),
            },
    {
        let name = port.to_owned();
        match find_decl(&self.outputs, &name) {
            Some(i) => Ok(self.outputs[i].contract.clone()),
            None => Err(Error::PortNotFound(name)),
        }
    }

    /// The schema identifier of the array output `port`.
    pub fn get_schema_output_array(&self, port: &str) -> (r: Result<String, Error>)
        ensures
            match r {
                Ok(s) => self.output_array_schema(port@) == Some(s@),
                Err(e) => self.output_array_schema(port@).is_none() && e@ == ErrorView::PortNotFound(
                    port@,
                ),
            },
    {
        let name = port.to_owned();
        match find_decl(&self.outarr, &name) {
            Some(i) => Ok(self.outarr[i].contract.clone()),
            None => Err(Error::PortNotFound(name)),
        }
    }

    /// Another send-handle for the scalar input `port`, made from `sender`,
    /// which has to be a handle of that port.
    pub fn clone_input(&self, port: &str, sender: &MsgSender) -> (r: Result<MsgSender, Error>)
        requires
            self.input_schema(port@).is_some() ==> self.input_schema(port@) == Some(
                sender@.schema,
            ),
        ensures
            match r {
                Ok(s) => self.input_schema(port@).is_some() && s == *sender,
                Err(e) => self.input_schema(port@).is_none() && e@ == ErrorView::PortNotFound(port@),
            },
    {
        match self.get_schema_input(port) {
            Ok(_) => Ok(sender.clone()),
            Err(e) => Err(e),
        }
    }

    /// Another send-handle for an element of the array input `port`, made
    /// from `sender`, which has to be a handle of that port.
    pub fn clone_input_array(&self, port: &str, sender: &MsgSender) -> (r: Result<MsgSender, Error>)
        requires
            self.input_array_schema(port@).is_some() ==> self.input_array_schema(port@) == Some(
                sender@.schema,
            ),
        ensures
            match r {
                Ok(s) => self.input_array_schema(port@).is_some() && s == *sender,
                Err(e) => self.input_array_schema(port@).is_none() && e@
                    == ErrorView::PortNotFound(port@),
            },
    {
        match self.get_schema_input_array(port) {
            Ok(_) => Ok(sender.clone()),
            Err(e) => Err(e),
        }
    }

    /// Opens the channel of a new element of the array input `port` of agent
    /// `id` in `net`, and returns its two ends.
    pub fn create_input_array(
        &self,
        port: &str,
        id: usize,
        net: &mut Channels,
        must_sched: bool,
    ) -> (r: Result<(MsgReceiver, MsgSender), Error>)
        ensures
            match r {
                Ok((recv, send)) => {
                    &&& self.input_array_schema(port@).is_some()
                    &&& final(net)@ == old(net)@.open(
                        id,
                        self.input_array_schema(port@).unwrap(),
                        must_sched,
                    )
                    &&& recv@ == (Endpoint {
                        chan: old(net)@.chans.len() as usize,
                        schema: self.input_array_schema(port@).unwrap(),
                    })
                    &&& send@ == recv@
                },
                Err(e) => self.input_array_schema(port@).is_none() && e@
                    == ErrorView::PortNotFound(port@) && final(net)@ == old(net)@,
            },
    {
        match self.get_schema_input_array(port) {
            Ok(schema) => Ok(MsgReceiver::new(net, id, schema.as_str(), must_sched)),
            Err(e) => Err(e),
        }
    }
}

} // verus!
