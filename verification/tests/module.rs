use rustfbp::module::{Module, PortDecl};
use rustfbp::ports::{Channels, MsgReceiver};
use rustfbp::result::Error;
use rustfbp::table::Table;

fn sample() -> Module {
    let mut m = Module::new("sample");
    m.inputs.push(PortDecl::new("input", "text"));
    m.inarr.push(PortDecl::new("numbers", "number"));
    m.outputs.push(PortDecl::new("output", "graph"));
    m.outarr.push(PortDecl::new("branches", "edge"));
    m.option = Some("settings".to_string());
    m.accumulator = Some("sum".to_string());
    m
}

#[test]
fn empty_module_is_valid() {
    let m = Module::new("empty");
    assert_eq!(m.name, "empty");
    assert!(m.is_valid());
    assert!(m.inputs.is_empty() && m.inarr.is_empty() && m.outputs.is_empty() && m.outarr.is_empty());
    assert_eq!(m.option, None);
    assert_eq!(m.accumulator, None);
}

#[test]
fn schema_queries_answer_by_direction_and_kind() {
    let m = sample();
    assert!(m.is_valid());
    assert_eq!(m.get_schema_input("input"), Ok("text".to_string()));
    assert_eq!(m.get_schema_input("option"), Ok("settings".to_string()));
    assert_eq!(m.get_schema_input("accumulator"), Ok("sum".to_string()));
    assert_eq!(m.get_schema_input("numbers"), Err(Error::PortNotFound("numbers".to_string())));
    assert_eq!(m.get_schema_input_array("numbers"), Ok("number".to_string()));
    assert_eq!(m.get_schema_input_array("input"), Err(Error::PortNotFound("input".to_string())));
    assert_eq!(m.get_schema_output("output"), Ok("graph".to_string()));
    assert_eq!(m.get_schema_output("branches"), Err(Error::PortNotFound("branches".to_string())));
    assert_eq!(m.get_schema_output_array("branches"), Ok("edge".to_string()));
    assert_eq!(m.get_schema_output_array("output"), Err(Error::PortNotFound("output".to_string())));
}

#[test]
fn option_and_accumulator_are_unknown_unless_declared() {
    let mut m = Module::new("plain");
    m.inputs.push(PortDecl::new("input", "text"));
    assert_eq!(m.get_schema_input("option"), Err(Error::PortNotFound("option".to_string())));
    assert_eq!(
        m.get_schema_input("accumulator"),
        Err(Error::PortNotFound("accumulator".to_string()))
    );
}

#[test]
fn input_may_be_called_option_where_no_option_is_declared() {
    let mut m = Module::new("odd");
    m.inputs.push(PortDecl::new("option", "text"));
    assert!(m.is_valid());
    assert_eq!(m.get_schema_input("option"), Ok("text".to_string()));
    m.option = Some("settings".to_string());
    assert!(!m.is_valid());
}

#[test]
fn input_called_accumulator_clashes_with_a_declared_accumulator() {
    let mut m = Module::new("odd");
    m.inputs.push(PortDecl::new("accumulator", "text"));
    assert!(m.is_valid());
    m.accumulator = Some("sum".to_string());
    assert!(!m.is_valid());
}

#[test]
fn repeated_name_in_any_list_makes_a_module_invalid() {
    let mut a = sample();
    a.inputs.push(PortDecl::new("input", "text"));
    assert!(!a.is_valid());
    let mut b = sample();
    b.inarr.push(PortDecl::new("numbers", "other"));
    assert!(!b.is_valid());
    let mut c = sample();
    c.outputs.push(PortDecl::new("output", "graph"));
    assert!(!c.is_valid());
    let mut d = sample();
    d.outarr.push(PortDecl::new("branches", "edge"));
    assert!(!d.is_valid());
}

#[test]
fn same_name_in_different_lists_is_valid() {
    let mut m = Module::new("same");
    m.inputs.push(PortDecl::new("data", "a"));
    m.inarr.push(PortDecl::new("data", "b"));
    m.outputs.push(PortDecl::new("data", "c"));
    m.outarr.push(PortDecl::new("data", "d"));
    assert!(m.is_valid());
    assert_eq!(m.get_schema_input("data"), Ok("a".to_string()));
    assert_eq!(m.get_schema_input_array("data"), Ok("b".to_string()));
    assert_eq!(m.get_schema_output("data"), Ok("c".to_string()));
    assert_eq!(m.get_schema_output_array("data"), Ok("d".to_string()));
}

#[test]
fn first_declaration_decides_the_schema() {
    let mut m = Module::new("twice");
    m.outputs.push(PortDecl::new("output", "first"));
    m.outputs.push(PortDecl::new("output", "second"));
    assert_eq!(m.get_schema_output("output"), Ok("first".to_string()));
}

#[test]
fn port_declaration_keeps_name_and_contract() {
    let d = PortDecl::new("input", "text");
    assert_eq!(d.name, "input");
    assert_eq!(d.contract, "text");
}

#[test]
fn handles_are_cloned_for_declared_inputs_only() {
    let m = sample();
    let mut net = Channels::new();
    let (_r, text) = MsgReceiver::new(&mut net, 0, "text", true);
    let (_r, number) = MsgReceiver::new(&mut net, 0, "number", true);
    let cloned = m.clone_input("input", &text).unwrap();
    assert_eq!(cloned.schema(), "text");
    assert_eq!(m.clone_input("numbers", &text).err(), Some(Error::PortNotFound("numbers".to_string())));
    let element = m.clone_input_array("numbers", &number).unwrap();
    assert_eq!(element.schema(), "number");
    assert_eq!(
        m.clone_input_array("input", &number).err(),
        Some(Error::PortNotFound("input".to_string()))
    );
}

#[test]
fn array_element_channel_is_created_for_array_inputs_only() {
    let m = sample();
    let mut net = Channels::new();
    let (recv, send) = m.create_input_array("numbers", 2, &mut net, false).unwrap();
    assert_eq!(net.len(), 1);
    assert_eq!(recv.schema(), "number");
    assert_eq!(send.schema(), "number");
    assert_eq!(
        m.create_input_array("input", 2, &mut net, true).err(),
        Some(Error::PortNotFound("input".to_string()))
    );
    assert_eq!(net.len(), 1);
}

#[test]
fn table_keeps_one_value_for_each_key() {
    let mut t: Table<usize> = Table::new();
    assert!(t.is_empty());
    assert!(!t.contains_key("a"));
    assert_eq!(t.get("a"), None);
    t.insert("a".to_string(), 1);
    t.insert("b".to_string(), 2);
    t.insert("a".to_string(), 3);
    assert!(!t.is_empty());
    assert!(t.contains_key("a"));
    assert_eq!(t.get("a"), Some(&3));
    assert_eq!(t.get("b"), Some(&2));
    assert_eq!(t.get("c"), None);
    assert_eq!(t.remove("a"), Some(3));
    assert_eq!(t.remove("a"), None);
    assert_eq!(t.get("a"), None);
    assert_eq!(t.get("b"), Some(&2));
    assert_eq!(t.remove("b"), Some(2));
    assert!(t.is_empty());
}
