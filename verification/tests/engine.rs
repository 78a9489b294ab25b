use rustfbp::agent::{Agent, Logic, PortSet, ThisAgent};
use rustfbp::module::{Module, PortDecl};
use rustfbp::ports::{Channels, Msg, MsgReceiver};
use rustfbp::result::Error;
use rustfbp::scheduler::{Dispatch, Scheduler, Signal};

/// What a test agent does in a step.
#[derive(Debug, Clone, PartialEq, Eq)]
enum Kind {
    /// Moves one message from `input` to `output`; ends after `limit` messages.
    Forward { limit: usize },
    /// Keeps every message that arrives on `input`; ends after `limit` messages.
    Sink { limit: usize },
    /// Sends `count` numbered messages on `output` in one step, then ends.
    Source { count: u8 },
    /// Sends one message tagged `tag` through `send_action` on `output`, then ends.
    Tagged { tag: Option<String> },
    /// Fails with a domain error.
    Failing,
    /// Does nothing and stays live.
    Idle,
}

#[derive(Debug)]
struct Probe {
    kind: Kind,
    steps: usize,
    seen: Vec<Vec<u8>>,
}

impl Probe {
    fn new(kind: Kind) -> Probe {
        Probe { kind, steps: 0, seen: Vec::new() }
    }
}

impl Logic for Probe {
    fn run(&mut self, ports: &PortSet, net: &mut Channels) -> Result<Signal, Error> {
        self.steps += 1;
        match self.kind.clone() {
            Kind::Forward { limit } => {
                let msg = ports.recv(net, "input")?;
                self.seen.push(msg.payload.clone());
                ports.send(net, "output", msg)?;
                if self.seen.len() >= limit {
                    Ok(Signal::End)
                } else {
                    Ok(Signal::Continue)
                }
            }
            Kind::Sink { limit } => {
                let msg = ports.recv(net, "input")?;
                self.seen.push(msg.payload);
                if self.seen.len() >= limit {
                    Ok(Signal::End)
                } else {
                    Ok(Signal::Continue)
                }
            }
            Kind::Source { count } => {
                for i in 0..count {
                    ports.send(net, "output", Msg::new(vec![i]))?;
                }
                Ok(Signal::End)
            }
            Kind::Tagged { tag } => {
                let msg = match tag {
                    Some(t) => Msg::with_action(&t, vec![7]),
                    None => Msg::new(vec![7]),
                };
                ports.send_action(net, "output", msg)?;
                Ok(Signal::End)
            }
            Kind::Failing => Err(Error::Domain("broken".to_string())),
            Kind::Idle => Ok(Signal::Continue),
        }
    }
}

fn stage(name: &str, schema_in: &str, schema_out: &str) -> Module {
    let mut m = Module::new(name);
    m.inputs.push(PortDecl::new("input", schema_in));
    m.outputs.push(PortDecl::new("output", schema_out));
    m
}

fn source(name: &str, schema_out: &str) -> Module {
    let mut m = Module::new(name);
    m.outputs.push(PortDecl::new("output", schema_out));
    m
}

fn router(name: &str) -> Module {
    let mut m = Module::new(name);
    m.outputs.push(PortDecl::new("output", "any"));
    m.outarr.push(PortDecl::new("output", "any"));
    m
}

fn collector(name: &str) -> Module {
    let mut m = Module::new(name);
    m.inputs.push(PortDecl::new("input", "any"));
    m.inarr.push(PortDecl::new("numbers", "any"));
    m
}

fn ports_of<'a>(sched: &'a Scheduler<Probe>, name: &str) -> &'a PortSet {
    sched.agent(name).expect("agent").port_set()
}

fn probe<'a>(sched: &'a Scheduler<Probe>, name: &str) -> &'a Probe {
    sched.agent(name).expect("agent").state()
}

#[test]
fn schema_mismatch_is_refused_and_changes_nothing() {
    let mut sched = Scheduler::new();
    sched.add_node("a", stage("a", "any", "text"), Probe::new(Kind::Idle)).unwrap();
    sched.add_node("b", stage("b", "number", "any"), Probe::new(Kind::Idle)).unwrap();
    let r = sched.connect("a", "output", "b", "input");
    assert_eq!(r, Err(Error::SchemaMismatch("text".to_string(), "number".to_string())));
    assert_eq!(ports_of(&sched, "a").is_connected("output"), Ok(false));
    assert_eq!(ports_of(&sched, "b").is_connected("output"), Ok(false));
    assert_eq!(sched.channels(), 2);
}

#[test]
fn matching_schemas_connect() {
    let mut sched = Scheduler::new();
    sched.add_node("a", stage("a", "any", "text"), Probe::new(Kind::Idle)).unwrap();
    sched.add_node("b", stage("b", "text", "any"), Probe::new(Kind::Idle)).unwrap();
    assert_eq!(sched.connect("a", "output", "b", "input"), Ok(()));
    assert_eq!(ports_of(&sched, "a").is_connected("output"), Ok(true));
    assert_eq!(ports_of(&sched, "b").is_connected("output"), Ok(false));
}

#[test]
fn agent_without_inputs_runs_once_when_started() {
    let mut sched = Scheduler::new();
    sched.add_node("src", source("src", "any"), Probe::new(Kind::Source { count: 3 })).unwrap();
    sched.add_node("dst", stage("dst", "any", "any"), Probe::new(Kind::Sink { limit: 3 })).unwrap();
    sched.connect("src", "output", "dst", "input").unwrap();
    assert!(!sched.agent("src").unwrap().is_input_ports());
    assert!(sched.agent("dst").unwrap().is_input_ports());
    sched.start();
    assert_eq!(sched.pending(), vec![0]);
    sched.join();
    assert_eq!(probe(&sched, "src").steps, 1);
    assert_eq!(probe(&sched, "dst").seen, vec![vec![0], vec![1], vec![2]]);
    assert_eq!(sched.is_retired("src"), Ok(true));
    assert_eq!(sched.is_retired("dst"), Ok(true));
}

#[test]
fn agent_without_inputs_runs_when_scheduled() {
    let mut sched = Scheduler::new();
    sched.add_node("src", source("src", "any"), Probe::new(Kind::Idle)).unwrap();
    assert_eq!(sched.schedule("src"), Ok(()));
    assert_eq!(sched.pending(), vec![0]);
    assert_eq!(sched.step(), Dispatch::Ran(0, Ok(Signal::Continue)));
    assert_eq!(probe(&sched, "src").steps, 1);
    assert_eq!(sched.step(), Dispatch::Idle);
    assert_eq!(sched.schedule("nobody"), Err(Error::AgentNotFound("nobody".to_string())));
}

#[test]
fn fan_in_delivers_every_message_once_in_each_producers_order() {
    let mut sched = Scheduler::new();
    sched.add_node("c", stage("c", "any", "any"), Probe::new(Kind::Sink { limit: 5 })).unwrap();
    let first = sched.get_sender("c", "input").unwrap();
    let second = sched.get_sender("c", "input").unwrap();
    sched.send(&first, Msg::new(vec![1, 0])).unwrap();
    sched.send(&second, Msg::new(vec![2, 0])).unwrap();
    sched.send(&first, Msg::new(vec![1, 1])).unwrap();
    sched.send(&second, Msg::new(vec![2, 1])).unwrap();
    sched.send(&first, Msg::new(vec![1, 2])).unwrap();
    assert_eq!(sched.pending(), vec![0, 0, 0, 0, 0]);
    sched.join();
    let seen = &probe(&sched, "c").seen;
    assert_eq!(seen.len(), 5);
    let from1: Vec<u8> = seen.iter().filter(|m| m[0] == 1).map(|m| m[1]).collect();
    let from2: Vec<u8> = seen.iter().filter(|m| m[0] == 2).map(|m| m[1]).collect();
    assert_eq!(from1, vec![0, 1, 2]);
    assert_eq!(from2, vec![0, 1]);
}

#[test]
fn tagged_message_goes_to_the_element_of_that_key() {
    let mut sched = Scheduler::new();
    let tag = Some("error".to_string());
    sched.add_node("r", router("r"), Probe::new(Kind::Tagged { tag })).unwrap();
    sched.add_node("plain", stage("plain", "any", "any"), Probe::new(Kind::Sink { limit: 1 })).unwrap();
    sched.add_node("errors", stage("errors", "any", "any"), Probe::new(Kind::Sink { limit: 1 })).unwrap();
    sched.connect("r", "output", "plain", "input").unwrap();
    sched.connect_array("r", "output", "error", "errors", "input").unwrap();
    sched.start();
    sched.join();
    assert_eq!(probe(&sched, "errors").seen, vec![vec![7]]);
    assert!(probe(&sched, "plain").seen.is_empty());
}

#[test]
fn tagged_message_falls_back_to_the_scalar_output() {
    let mut sched = Scheduler::new();
    let tag = Some("error".to_string());
    sched.add_node("r", router("r"), Probe::new(Kind::Tagged { tag })).unwrap();
    sched.add_node("plain", stage("plain", "any", "any"), Probe::new(Kind::Sink { limit: 1 })).unwrap();
    sched.connect("r", "output", "plain", "input").unwrap();
    assert_eq!(ports_of(&sched, "r").is_array_connected("output", "error"), Ok(false));
    sched.start();
    sched.join();
    assert_eq!(probe(&sched, "plain").seen, vec![vec![7]]);
}

#[test]
fn untagged_message_uses_the_scalar_output() {
    let mut sched = Scheduler::new();
    sched.add_node("r", router("r"), Probe::new(Kind::Tagged { tag: None })).unwrap();
    sched.add_node("plain", stage("plain", "any", "any"), Probe::new(Kind::Sink { limit: 1 })).unwrap();
    sched.add_node("errors", stage("errors", "any", "any"), Probe::new(Kind::Sink { limit: 1 })).unwrap();
    sched.connect("r", "output", "plain", "input").unwrap();
    sched.connect_array("r", "output", "error", "errors", "input").unwrap();
    sched.start();
    sched.join();
    assert_eq!(probe(&sched, "plain").seen, vec![vec![7]]);
    assert!(probe(&sched, "errors").seen.is_empty());
}

#[test]
fn retired_agent_is_not_run_again() {
    let mut sched = Scheduler::new();
    sched.add_node("c", stage("c", "any", "any"), Probe::new(Kind::Sink { limit: 1 })).unwrap();
    let seed = sched.get_sender("c", "input").unwrap();
    sched.send(&seed, Msg::new(vec![1])).unwrap();
    assert_eq!(sched.step(), Dispatch::Ran(0, Ok(Signal::End)));
    assert_eq!(sched.is_retired("c"), Ok(true));
    assert_eq!(probe(&sched, "c").steps, 1);
    assert_eq!(sched.send(&seed, Msg::new(vec![2])), Ok(()));
    assert_eq!(sched.send(&seed, Msg::new(vec![3])), Ok(()));
    assert_eq!(sched.step(), Dispatch::Skipped(0));
    assert_eq!(sched.join(), 1);
    assert_eq!(probe(&sched, "c").steps, 1);
    assert_eq!(probe(&sched, "c").seen, vec![vec![1]]);
}

#[test]
fn three_stages_pass_five_messages_in_order() {
    let mut sched = Scheduler::new();
    sched.add_node("a", stage("a", "any", "any"), Probe::new(Kind::Forward { limit: 5 })).unwrap();
    sched.add_node("b", stage("b", "any", "any"), Probe::new(Kind::Forward { limit: 5 })).unwrap();
    sched.add_node("c", stage("c", "any", "any"), Probe::new(Kind::Sink { limit: 5 })).unwrap();
    sched.connect("a", "output", "b", "input").unwrap();
    sched.connect("b", "output", "c", "input").unwrap();
    let seed = sched.get_sender("a", "input").unwrap();
    for i in 0..5u8 {
        sched.send(&seed, Msg::new(vec![i])).unwrap();
    }
    sched.start();
    let turns = sched.join();
    assert_eq!(turns, 15);
    assert_eq!(probe(&sched, "c").seen, vec![vec![0], vec![1], vec![2], vec![3], vec![4]]);
    assert_eq!(sched.is_retired("a"), Ok(true));
    assert_eq!(sched.is_retired("b"), Ok(true));
    assert_eq!(sched.is_retired("c"), Ok(true));
    assert!(sched.pending().is_empty());
}

#[test]
fn unknown_port_is_refused_and_other_wiring_still_works() {
    let mut sched = Scheduler::new();
    sched.add_node("a", stage("a", "any", "any"), Probe::new(Kind::Forward { limit: 1 })).unwrap();
    sched.add_node("b", stage("b", "any", "any"), Probe::new(Kind::Sink { limit: 1 })).unwrap();
    sched.connect("a", "output", "b", "input").unwrap();
    assert_eq!(
        sched.connect("a", "nothing", "b", "input"),
        Err(Error::PortNotFound("nothing".to_string()))
    );
    assert_eq!(
        sched.connect("a", "output", "b", "nothing"),
        Err(Error::PortNotFound("nothing".to_string()))
    );
    assert_eq!(
        sched.connect_array("a", "output", "k", "b", "input"),
        Err(Error::PortNotFound("output".to_string()))
    );
    assert_eq!(
        sched.connect_to_array("a", "output", "b", "numbers", "k"),
        Err(Error::PortNotFound("numbers".to_string()))
    );
    assert_eq!(ports_of(&sched, "a").is_connected("output"), Ok(true));
    let seed = sched.get_sender("a", "input").unwrap();
    sched.send(&seed, Msg::new(vec![9])).unwrap();
    sched.join();
    assert_eq!(probe(&sched, "b").seen, vec![vec![9]]);
}

#[test]
fn unknown_agent_is_refused() {
    let mut sched: Scheduler<Probe> = Scheduler::new();
    sched.add_node("a", stage("a", "any", "any"), Probe::new(Kind::Idle)).unwrap();
    assert_eq!(
        sched.connect("a", "output", "b", "input"),
        Err(Error::AgentNotFound("b".to_string()))
    );
    assert_eq!(
        sched.connect("b", "output", "a", "input"),
        Err(Error::AgentNotFound("b".to_string()))
    );
    assert_eq!(sched.get_sender("b", "input").err(), Some(Error::AgentNotFound("b".to_string())));
    assert_eq!(sched.get_sender("a", "x").err(), Some(Error::PortNotFound("x".to_string())));
    assert_eq!(sched.id_of("a"), Ok(0));
    assert_eq!(sched.id_of("b"), Err(Error::AgentNotFound("b".to_string())));
}

#[test]
fn consumer_is_looked_up_before_producer() {
    let mut sched: Scheduler<Probe> = Scheduler::new();
    sched.add_node("a", stage("a", "any", "any"), Probe::new(Kind::Idle)).unwrap();
    assert_eq!(
        sched.connect("x", "output", "y", "input"),
        Err(Error::AgentNotFound("y".to_string()))
    );
    assert_eq!(
        sched.connect("a", "nothing", "a", "missing"),
        Err(Error::PortNotFound("missing".to_string()))
    );
}

#[test]
fn invalid_module_is_refused() {
    let mut sched: Scheduler<Probe> = Scheduler::new();
    let mut m = stage("twice", "any", "any");
    m.inputs.push(PortDecl::new("input", "text"));
    assert!(!m.is_valid());
    assert_eq!(
        sched.add_node("t", m, Probe::new(Kind::Idle)),
        Err(Error::ModuleLoadFailure("twice".to_string()))
    );
    assert_eq!(sched.len(), 0);
    assert_eq!(sched.channels(), 0);
    assert_eq!(sched.id_of("t"), Err(Error::AgentNotFound("t".to_string())));
}

#[test]
fn failing_agent_is_retired_and_the_rest_goes_on() {
    let mut sched = Scheduler::new();
    sched.add_node("bad", stage("bad", "any", "any"), Probe::new(Kind::Failing)).unwrap();
    sched.add_node("good", stage("good", "any", "any"), Probe::new(Kind::Sink { limit: 1 })).unwrap();
    let to_bad = sched.get_sender("bad", "input").unwrap();
    let to_good = sched.get_sender("good", "input").unwrap();
    sched.send(&to_bad, Msg::new(vec![1])).unwrap();
    sched.send(&to_good, Msg::new(vec![2])).unwrap();
    assert_eq!(sched.step(), Dispatch::Ran(0, Err(Error::Domain("broken".to_string()))));
    assert_eq!(sched.is_retired("bad"), Ok(true));
    assert_eq!(sched.is_retired("good"), Ok(false));
    assert_eq!(sched.step(), Dispatch::Ran(1, Ok(Signal::End)));
    assert_eq!(probe(&sched, "good").seen, vec![vec![2]]);
}

#[test]
fn array_input_element_is_added_once() {
    let mut sched: Scheduler<Probe> = Scheduler::new();
    sched.add_node("c", collector("c"), Probe::new(Kind::Idle)).unwrap();
    assert_eq!(sched.channels(), 1);
    assert_eq!(ports_of(&sched, "c").has_inarr_element("numbers", "k"), Ok(false));
    assert_eq!(sched.add_input_array_element("c", "numbers", "k"), Ok(()));
    assert_eq!(sched.channels(), 2);
    assert_eq!(ports_of(&sched, "c").has_inarr_element("numbers", "k"), Ok(true));
    assert_eq!(sched.add_input_array_element("c", "numbers", "k"), Ok(()));
    assert_eq!(sched.channels(), 2);
    assert_eq!(
        sched.add_input_array_element("c", "input", "k"),
        Err(Error::PortNotFound("input".to_string()))
    );
    assert_eq!(
        sched.add_input_array_element("d", "numbers", "k"),
        Err(Error::AgentNotFound("d".to_string()))
    );
}

#[test]
fn array_ports_are_wired_by_key() {
    let mut sched = Scheduler::new();
    sched.add_node("r", router("r"), Probe::new(Kind::Tagged { tag: Some("one".to_string()) })).unwrap();
    sched.add_node("c", collector("c"), Probe::new(Kind::Idle)).unwrap();
    assert_eq!(sched.connect_array_to_array("r", "output", "one", "c", "numbers", "first"), Ok(()));
    assert_eq!(sched.connect_to_array("r", "output", "c", "numbers", "first"), Ok(()));
    assert_eq!(sched.channels(), 2);
    assert_eq!(ports_of(&sched, "r").is_array_connected("output", "one"), Ok(true));
    assert_eq!(ports_of(&sched, "r").is_connected("output"), Ok(true));
    assert_eq!(ports_of(&sched, "c").has_inarr_element("numbers", "first"), Ok(true));
    sched.start();
    assert_eq!(sched.step(), Dispatch::Ran(0, Ok(Signal::End)));
    assert_eq!(sched.pending(), vec![1]);
    assert_eq!(sched.step(), Dispatch::Ran(1, Ok(Signal::Continue)));
}

#[test]
fn later_registration_takes_the_name() {
    let mut sched: Scheduler<Probe> = Scheduler::new();
    assert_eq!(sched.add_node("a", stage("a", "any", "any"), Probe::new(Kind::Idle)), Ok(0));
    assert_eq!(sched.add_node("a", stage("a", "any", "any"), Probe::new(Kind::Idle)), Ok(1));
    assert_eq!(sched.id_of("a"), Ok(1));
    assert_eq!(sched.len(), 2);
}

#[test]
fn agent_contract_reports_unknown_ports() {
    let mut net = Channels::new();
    let (mut agent, senders) =
        ThisAgent::new(&router("r"), 4, &mut net, Probe::new(Kind::Idle)).unwrap();
    assert!(senders.is_empty());
    assert_eq!(agent.port_set().id(), 4);
    let (recv, send) = MsgReceiver::new(&mut net, 9, "any", true);
    assert_eq!(agent.connect("nothing", send.clone()), Err(Error::PortNotFound("nothing".to_string())));
    assert_eq!(
        agent.connect_array("nothing", "k".to_string(), send.clone()),
        Err(Error::PortNotFound("nothing".to_string()))
    );
    assert_eq!(
        agent.add_inarr_element("nothing", "k".to_string(), recv),
        Err(Error::PortNotFound("nothing".to_string()))
    );
    assert_eq!(agent.connect("output", send.clone()), Ok(()));
    assert_eq!(agent.connect_array("output", "k".to_string(), send), Ok(()));
    assert_eq!(agent.port_set().is_connected("output"), Ok(true));
    assert_eq!(agent.port_set().is_array_connected("output", "k"), Ok(true));
    assert_eq!(agent.port_set().is_array_connected("output", "other"), Ok(false));
    assert_eq!(
        agent.port_set().is_connected("nothing"),
        Err(Error::PortNotFound("nothing".to_string()))
    );
}

#[test]
fn start_queues_agents_without_inputs_in_order_of_identity() {
    let mut sched = Scheduler::new();
    sched.add_node("s1", source("s1", "any"), Probe::new(Kind::Idle)).unwrap();
    sched.add_node("mid", stage("mid", "any", "any"), Probe::new(Kind::Idle)).unwrap();
    sched.add_node("s2", source("s2", "any"), Probe::new(Kind::Source { count: 0 })).unwrap();
    sched.add_node("arr", collector("arr"), Probe::new(Kind::Idle)).unwrap();
    sched.start();
    assert_eq!(sched.pending(), vec![0, 2]);
    assert_eq!(sched.join(), 2);
    assert_eq!(sched.is_retired("s1"), Ok(false));
    assert_eq!(sched.is_retired("s2"), Ok(true));
    sched.start();
    assert_eq!(sched.pending(), vec![0]);
}

#[test]
fn configuration_port_is_wired_like_an_input_but_does_not_wake() {
    let mut sched = Scheduler::new();
    let mut configured = stage("configured", "any", "any");
    configured.option = Some("settings".to_string());
    sched.add_node("src", source("src", "settings"), Probe::new(Kind::Source { count: 2 })).unwrap();
    sched.add_node("dst", configured, Probe::new(Kind::Idle)).unwrap();
    assert_eq!(sched.connect("src", "output", "dst", "option"), Ok(()));
    sched.start();
    assert_eq!(sched.step(), Dispatch::Ran(0, Ok(Signal::End)));
    assert!(sched.pending().is_empty());
    assert_eq!(probe(&sched, "dst").steps, 0);
    let direct = sched.get_sender("dst", "option").unwrap();
    assert_eq!(direct.schema(), "settings");
    assert_eq!(sched.send(&direct, Msg::new(vec![1])), Ok(()));
    assert!(sched.pending().is_empty());
}

#[test]
fn agent_may_be_wired_to_itself() {
    let mut sched = Scheduler::new();
    sched.add_node("loop", stage("loop", "any", "any"), Probe::new(Kind::Forward { limit: 3 })).unwrap();
    assert_eq!(sched.connect("loop", "output", "loop", "input"), Ok(()));
    let seed = sched.get_sender("loop", "input").unwrap();
    sched.send(&seed, Msg::new(vec![4])).unwrap();
    assert_eq!(sched.step(), Dispatch::Ran(0, Ok(Signal::Continue)));
    assert_eq!(sched.step(), Dispatch::Ran(0, Ok(Signal::Continue)));
    assert_eq!(sched.step(), Dispatch::Ran(0, Ok(Signal::End)));
    assert_eq!(sched.pending(), vec![0]);
    assert_eq!(sched.join(), 1);
    assert_eq!(probe(&sched, "loop").steps, 3);
    assert_eq!(probe(&sched, "loop").seen, vec![vec![4], vec![4], vec![4]]);
    assert_eq!(sched.is_retired("loop"), Ok(true));
    assert!(sched.pending().is_empty());
}

#[test]
fn empty_coordinator_is_idle() {
    let mut sched: Scheduler<Probe> = Scheduler::new();
    assert_eq!(sched.len(), 0);
    assert_eq!(sched.channels(), 0);
    assert!(sched.pending().is_empty());
    assert_eq!(sched.step(), Dispatch::Idle);
    sched.start();
    assert_eq!(sched.join(), 0);
}

#[test]
fn step_that_finds_no_message_reports_the_error_and_retires() {
    let mut sched = Scheduler::new();
    sched.add_node("c", stage("c", "any", "any"), Probe::new(Kind::Sink { limit: 9 })).unwrap();
    sched.schedule("c").unwrap();
    assert_eq!(sched.step(), Dispatch::Ran(0, Err(Error::ChannelEmpty)));
    assert_eq!(sched.is_retired("c"), Ok(true));
}

#[test]
fn fan_in_from_two_producing_agents() {
    let mut sched = Scheduler::new();
    sched.add_node("one", source("one", "any"), Probe::new(Kind::Source { count: 2 })).unwrap();
    sched.add_node("two", source("two", "any"), Probe::new(Kind::Source { count: 3 })).unwrap();
    sched.add_node("c", stage("c", "any", "any"), Probe::new(Kind::Sink { limit: 5 })).unwrap();
    sched.connect("one", "output", "c", "input").unwrap();
    sched.connect("two", "output", "c", "input").unwrap();
    sched.start();
    assert_eq!(sched.join(), 7);
    assert_eq!(
        probe(&sched, "c").seen,
        vec![vec![0], vec![1], vec![0], vec![1], vec![2]]
    );
}

#[test]
fn reconnecting_an_output_replaces_its_channel() {
    let mut sched = Scheduler::new();
    sched.add_node("src", source("src", "any"), Probe::new(Kind::Source { count: 1 })).unwrap();
    sched.add_node("old", stage("old", "any", "any"), Probe::new(Kind::Sink { limit: 1 })).unwrap();
    sched.add_node("new", stage("new", "any", "any"), Probe::new(Kind::Sink { limit: 1 })).unwrap();
    sched.connect("src", "output", "old", "input").unwrap();
    sched.connect("src", "output", "new", "input").unwrap();
    assert_eq!(
        sched.connect("src", "output", "new", "nothing"),
        Err(Error::PortNotFound("nothing".to_string()))
    );
    sched.start();
    sched.join();
    assert!(probe(&sched, "old").seen.is_empty());
    assert_eq!(probe(&sched, "new").seen, vec![vec![0]]);
}
