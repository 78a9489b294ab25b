use rustfbp::agent::{Agent, Logic, PortSet, ThisAgent};
use rustfbp::module::{Module, PortDecl};
use rustfbp::ports::{Channels, Msg, MsgReceiver};
use rustfbp::result::Error;
use rustfbp::scheduler::Signal;

struct Quiet;

impl Logic for Quiet {
    fn run(&mut self, _ports: &PortSet, _net: &mut Channels) -> Result<Signal, Error> {
        Ok(Signal::Continue)
    }
}

fn full_module() -> Module {
    let mut m = Module::new("full");
    m.inputs.push(PortDecl::new("input", "text"));
    m.inputs.push(PortDecl::new("second", "number"));
    m.inarr.push(PortDecl::new("numbers", "number"));
    m.outputs.push(PortDecl::new("output", "text"));
    m.outarr.push(PortDecl::new("output", "text"));
    m.option = Some("settings".to_string());
    m.accumulator = Some("sum".to_string());
    m
}

#[test]
fn message_constructors_set_the_tag() {
    let plain = Msg::new(vec![1, 2, 3]);
    assert_eq!(plain.action, None);
    assert_eq!(plain.payload, vec![1, 2, 3]);
    let tagged = Msg::with_action("error", vec![4]);
    assert_eq!(tagged.action, Some("error".to_string()));
    assert_eq!(tagged.payload, vec![4]);
    assert_eq!(tagged.clone(), tagged);
}

#[test]
fn channel_delivers_in_send_order() {
    let mut net = Channels::new();
    assert_eq!(net.len(), 0);
    let (recv, send) = MsgReceiver::new(&mut net, 7, "any", true);
    assert_eq!(net.len(), 1);
    assert_eq!(recv.schema(), "any");
    assert_eq!(send.schema(), "any");
    assert_eq!(net.pending(&recv), 0);
    net.send(&send, Msg::new(vec![1])).unwrap();
    net.send(&send.clone(), Msg::new(vec![2])).unwrap();
    net.send(&send, Msg::new(vec![3])).unwrap();
    assert_eq!(net.pending(&recv), 3);
    assert_eq!(net.recv(&recv).unwrap().payload, vec![1]);
    assert_eq!(net.recv(&recv).unwrap().payload, vec![2]);
    assert_eq!(net.recv(&recv).unwrap().payload, vec![3]);
    assert_eq!(net.recv(&recv), Err(Error::ChannelEmpty));
    assert_eq!(net.pending(&recv), 0);
}

#[test]
fn wake_flag_decides_whether_a_notice_is_left() {
    let mut net = Channels::new();
    let (_waking, to_waking) = MsgReceiver::new(&mut net, 4, "any", true);
    let (_passive, to_passive) = MsgReceiver::new(&mut net, 5, "any", false);
    net.send(&to_passive, Msg::new(vec![])).unwrap();
    assert!(net.take_notices().is_empty());
    net.send(&to_waking, Msg::new(vec![])).unwrap();
    net.send(&to_passive, Msg::new(vec![])).unwrap();
    net.send(&to_waking, Msg::new(vec![])).unwrap();
    assert_eq!(net.take_notices(), vec![4, 4]);
    assert!(net.take_notices().is_empty());
}

#[test]
fn handle_of_another_fabric_is_closed() {
    let mut first = Channels::new();
    let (recv, send) = MsgReceiver::new(&mut first, 0, "any", true);
    let mut second = Channels::new();
    assert_eq!(second.send(&send, Msg::new(vec![1])), Err(Error::ChannelClosed));
    assert_eq!(second.recv(&recv), Err(Error::ChannelClosed));
    assert_eq!(second.pending(&recv), 0);
    assert_eq!(second.try_recv_option(&recv), None);
    assert_eq!(second.recv_option(&recv), Err(Error::ChannelClosed));
    assert_eq!(second.len(), 0);
    assert!(second.take_notices().is_empty());
}

#[test]
fn option_keeps_the_latest_setting() {
    let mut net = Channels::new();
    let (recv, send) = MsgReceiver::new(&mut net, 0, "settings", false);
    assert_eq!(net.try_recv_option(&recv), None);
    assert_eq!(net.recv_option(&recv), Err(Error::ChannelEmpty));
    net.send(&send, Msg::new(vec![1])).unwrap();
    net.send(&send, Msg::new(vec![2])).unwrap();
    assert_eq!(net.try_recv_option(&recv), Some(Msg::new(vec![2])));
    assert_eq!(net.pending(&recv), 0);
    assert_eq!(net.recv_option(&recv), Ok(Msg::new(vec![2])));
    net.send(&send, Msg::new(vec![3])).unwrap();
    assert_eq!(net.recv_option(&recv), Ok(Msg::new(vec![3])));
    assert_eq!(net.try_recv_option(&recv), Some(Msg::new(vec![3])));
}

#[test]
fn new_agent_opens_option_accumulator_and_inputs() {
    let mut net = Channels::new();
    let (outside, _) = MsgReceiver::new(&mut net, 0, "any", true);
    let (agent, senders) = ThisAgent::new(&full_module(), 3, &mut net, Quiet).unwrap();
    assert_eq!(net.len(), 5);
    assert!(agent.is_input_ports());
    assert!(senders.contains_key("option"));
    assert!(senders.contains_key("accumulator"));
    assert!(senders.contains_key("input"));
    assert!(senders.contains_key("second"));
    assert!(!senders.contains_key("numbers"));
    assert!(!senders.contains_key("output"));
    assert_eq!(senders.get("option").unwrap().schema(), "settings");
    assert_eq!(senders.get("accumulator").unwrap().schema(), "sum");
    assert_eq!(senders.get("input").unwrap().schema(), "text");
    assert_eq!(senders.get("second").unwrap().schema(), "number");

    let ports = agent.port_set();
    net.send(senders.get("option").unwrap(), Msg::new(vec![1])).unwrap();
    net.send(senders.get("accumulator").unwrap(), Msg::new(vec![2])).unwrap();
    assert!(net.take_notices().is_empty());
    net.send(senders.get("input").unwrap(), Msg::new(vec![3])).unwrap();
    net.send(senders.get("second").unwrap(), Msg::new(vec![4])).unwrap();
    assert_eq!(net.take_notices(), vec![3, 3]);
    assert_eq!(ports.recv_option(&mut net), Ok(Msg::new(vec![1])));
    assert_eq!(ports.try_recv_option(&mut net), Some(Msg::new(vec![1])));
    assert_eq!(ports.recv_accumulator(&mut net), Ok(Msg::new(vec![2])));
    assert_eq!(ports.recv(&mut net, "input"), Ok(Msg::new(vec![3])));
    assert_eq!(ports.recv(&mut net, "second"), Ok(Msg::new(vec![4])));
    assert_eq!(ports.recv(&mut net, "input"), Err(Error::ChannelEmpty));
    assert_eq!(ports.recv(&mut net, "option"), Err(Error::PortNotFound("option".to_string())));
    assert_eq!(net.pending(&outside), 0);
}

#[test]
fn agent_sends_to_its_own_accumulator() {
    let mut net = Channels::new();
    let (agent, _senders) = ThisAgent::new(&full_module(), 0, &mut net, Quiet).unwrap();
    let ports = agent.port_set();
    assert_eq!(ports.recv_accumulator(&mut net), Err(Error::ChannelEmpty));
    assert_eq!(ports.send_accumulator(&mut net, Msg::new(vec![5])), Ok(()));
    assert!(net.take_notices().is_empty());
    assert_eq!(ports.recv_accumulator(&mut net), Ok(Msg::new(vec![5])));
}

#[test]
fn agent_without_option_or_accumulator_reports_them_missing() {
    let mut net = Channels::new();
    let mut m = Module::new("bare");
    m.outputs.push(PortDecl::new("output", "any"));
    let (agent, senders) = ThisAgent::new(&m, 0, &mut net, Quiet).unwrap();
    assert_eq!(net.len(), 0);
    assert!(senders.is_empty());
    assert!(!agent.is_input_ports());
    let ports = agent.port_set();
    assert_eq!(ports.try_recv_option(&mut net), None);
    assert_eq!(ports.recv_option(&mut net), Err(Error::PortNotFound("option".to_string())));
    assert_eq!(
        ports.recv_accumulator(&mut net),
        Err(Error::PortNotFound("accumulator".to_string()))
    );
    assert_eq!(
        ports.send_accumulator(&mut net, Msg::new(vec![])),
        Err(Error::PortNotFound("accumulator".to_string()))
    );
}

#[test]
fn array_input_alone_counts_as_input() {
    let mut net = Channels::new();
    let mut m = Module::new("arr");
    m.inarr.push(PortDecl::new("numbers", "number"));
    let (agent, _) = ThisAgent::new(&m, 0, &mut net, Quiet).unwrap();
    assert!(agent.is_input_ports());
}

#[test]
fn option_alone_does_not_count_as_input() {
    let mut net = Channels::new();
    let mut m = Module::new("opt");
    m.option = Some("settings".to_string());
    let (agent, senders) = ThisAgent::new(&m, 0, &mut net, Quiet).unwrap();
    assert!(!agent.is_input_ports());
    assert!(senders.contains_key("option"));
}

#[test]
fn unconnected_output_refuses_to_send() {
    let mut net = Channels::new();
    let (mut agent, _) = ThisAgent::new(&full_module(), 0, &mut net, Quiet).unwrap();
    assert_eq!(
        agent.port_set().send(&mut net, "output", Msg::new(vec![1])),
        Err(Error::OutputNotConnected("output".to_string()))
    );
    assert_eq!(
        agent.port_set().send(&mut net, "nothing", Msg::new(vec![1])),
        Err(Error::PortNotFound("nothing".to_string()))
    );
    assert_eq!(
        agent.port_set().send_array(&mut net, "output", "k", Msg::new(vec![1])),
        Err(Error::OutputNotConnected("k".to_string()))
    );
    assert_eq!(
        agent.port_set().send_array(&mut net, "nothing", "k", Msg::new(vec![1])),
        Err(Error::PortNotFound("nothing".to_string()))
    );
    assert_eq!(
        agent.port_set().send_action(&mut net, "output", Msg::with_action("k", vec![1])),
        Err(Error::OutputNotConnected("output".to_string()))
    );
    let (recv, send) = MsgReceiver::new(&mut net, 9, "text", false);
    agent.connect("output", send).unwrap();
    assert_eq!(agent.port_set().send(&mut net, "output", Msg::new(vec![1])), Ok(()));
    assert_eq!(net.recv(&recv), Ok(Msg::new(vec![1])));
}

#[test]
fn send_action_routes_by_tag() {
    let mut net = Channels::new();
    let (mut agent, _) = ThisAgent::new(&full_module(), 0, &mut net, Quiet).unwrap();
    let (plain, to_plain) = MsgReceiver::new(&mut net, 1, "text", false);
    let (errors, to_errors) = MsgReceiver::new(&mut net, 2, "text", false);
    agent.connect("output", to_plain).unwrap();
    agent.connect_array("output", "error".to_string(), to_errors).unwrap();
    let ports = agent.port_set();
    ports.send_action(&mut net, "output", Msg::with_action("error", vec![1])).unwrap();
    ports.send_action(&mut net, "output", Msg::with_action("other", vec![2])).unwrap();
    ports.send_action(&mut net, "output", Msg::new(vec![3])).unwrap();
    ports.send_array(&mut net, "output", "error", Msg::new(vec![4])).unwrap();
    assert_eq!(net.recv(&errors), Ok(Msg::with_action("error", vec![1])));
    assert_eq!(net.recv(&errors), Ok(Msg::new(vec![4])));
    assert_eq!(net.recv(&errors), Err(Error::ChannelEmpty));
    assert_eq!(net.recv(&plain), Ok(Msg::with_action("other", vec![2])));
    assert_eq!(net.recv(&plain), Ok(Msg::new(vec![3])));
    assert_eq!(net.recv(&plain), Err(Error::ChannelEmpty));
}

#[test]
fn connect_array_replaces_the_handle_under_a_key() {
    let mut net = Channels::new();
    let (mut agent, _) = ThisAgent::new(&full_module(), 0, &mut net, Quiet).unwrap();
    let (first, to_first) = MsgReceiver::new(&mut net, 1, "text", false);
    let (second, to_second) = MsgReceiver::new(&mut net, 2, "text", false);
    agent.connect_array("output", "k".to_string(), to_first).unwrap();
    agent.connect_array("output", "k".to_string(), to_second).unwrap();
    agent.port_set().send_array(&mut net, "output", "k", Msg::new(vec![1])).unwrap();
    assert_eq!(net.pending(&first), 0);
    assert_eq!(net.pending(&second), 1);
}

#[test]
fn array_input_elements_are_read_by_key() {
    let mut net = Channels::new();
    let module = full_module();
    let (mut agent, _) = ThisAgent::new(&module, 6, &mut net, Quiet).unwrap();
    let (recv, send) = module.create_input_array("numbers", 6, &mut net, true).unwrap();
    assert_eq!(recv.schema(), "number");
    assert_eq!(agent.port_set().has_inarr_element("numbers", "k"), Ok(false));
    agent.add_inarr_element("numbers", "k".to_string(), recv).unwrap();
    assert_eq!(agent.port_set().has_inarr_element("numbers", "k"), Ok(true));
    assert_eq!(
        agent.port_set().has_inarr_element("nothing", "k"),
        Err(Error::PortNotFound("nothing".to_string()))
    );
    net.send(&send, Msg::new(vec![8])).unwrap();
    assert_eq!(net.take_notices(), vec![6]);
    let ports = agent.port_set();
    assert_eq!(ports.recv_array(&mut net, "numbers", "k"), Ok(Msg::new(vec![8])));
    assert_eq!(ports.recv_array(&mut net, "numbers", "k"), Err(Error::ChannelEmpty));
    assert_eq!(
        ports.recv_array(&mut net, "numbers", "other"),
        Err(Error::PortNotFound("other".to_string()))
    );
    assert_eq!(
        ports.recv_array(&mut net, "nothing", "k"),
        Err(Error::PortNotFound("nothing".to_string()))
    );
}

#[test]
fn invalid_declaration_builds_no_agent() {
    let mut net = Channels::new();
    let mut m = full_module();
    m.outputs.push(PortDecl::new("output", "other"));
    let r = ThisAgent::new(&m, 0, &mut net, Quiet);
    assert_eq!(r.err(), Some(Error::ModuleLoadFailure("full".to_string())));
    assert_eq!(net.len(), 0);
}
