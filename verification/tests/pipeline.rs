use rustfbp::module::{Module, PortDecl};
use rustfbp::ports::Msg;
use rustfbp::relay::Relay;
use rustfbp::result::Error;
use rustfbp::{assemble, check, module_file, run, Call};

fn part(file: &str, schema_in: &str, schema_out: &str) -> Module {
    let mut m = Module::new(file);
    m.inputs.push(PortDecl::new("input", schema_in));
    m.outputs.push(PortDecl::new("output", schema_out));
    m
}

fn stages() -> [Module; 4] {
    [
        part("fs_file_open.so", "path", "text"),
        part("core_parser_lexical.so", "text", "lexical"),
        part("core_parser_semantic.so", "lexical", "graph"),
        part("core_parser_graph_check.so", "graph", "graph"),
    ]
}

#[test]
fn each_stage_has_its_module_file() {
    assert_eq!(module_file("open"), Some("fs_file_open.so".to_string()));
    assert_eq!(module_file("lex"), Some("core_parser_lexical.so".to_string()));
    assert_eq!(module_file("sem"), Some("core_parser_semantic.so".to_string()));
    assert_eq!(module_file("graph_check"), Some("core_parser_graph_check.so".to_string()));
    assert_eq!(module_file("vm"), None);
    assert_eq!(module_file(""), None);
}

#[test]
fn run_seeds_the_first_stage_and_drives_all_four() {
    let [open, lex, sem, graph_check] = stages();
    assert_eq!(check(&open, &lex, &sem, &graph_check), Ok(()));
    let (sched, turns) = run(
        "",
        (open, Relay::pass(1)),
        (lex, Relay::pass(1)),
        (sem, Relay::pass(1)),
        (graph_check, Relay::keep(1)),
    );
    assert_eq!(turns, 4);
    assert!(sched.pending().is_empty());
    let seed = Msg::new(b"/home/denis/test.fbp".to_vec());
    assert_eq!(sched.agent("graph_check").unwrap().state().kept, vec![seed]);
    for name in ["open", "lex", "sem"] {
        assert!(sched.agent(name).unwrap().state().kept.is_empty());
        assert_eq!(sched.agent(name).unwrap().state().left, 0);
    }
    for name in ["open", "lex", "sem", "graph_check"] {
        assert_eq!(sched.is_retired(name), Ok(true));
    }
    assert_eq!(sched.id_of("open"), Ok(0));
    assert_eq!(sched.id_of("lex"), Ok(1));
    assert_eq!(sched.id_of("sem"), Ok(2));
    assert_eq!(sched.id_of("graph_check"), Ok(3));
    assert_eq!(sched.len(), 4);
}

#[test]
fn seed_does_not_depend_on_the_path_asked_for() {
    let [open, lex, sem, graph_check] = stages();
    let (sched, _) = run(
        "/tmp/other.fbp",
        (open, Relay::keep(1)),
        (lex, Relay::pass(1)),
        (sem, Relay::pass(1)),
        (graph_check, Relay::keep(1)),
    );
    assert_eq!(
        sched.agent("open").unwrap().state().kept,
        vec![Msg::new(b"/home/denis/test.fbp".to_vec())]
    );
    assert_eq!(sched.is_retired("lex"), Ok(false));
}

#[test]
fn check_reports_a_schema_mismatch_between_stages() {
    let [open, lex, _, graph_check] = stages();
    let sem = part("core_parser_semantic.so", "tokens", "graph");
    let clash = Error::SchemaMismatch("lexical".to_string(), "tokens".to_string());
    assert_eq!(check(&open, &lex, &sem, &graph_check), Err((Call::Connect, clash)));
    let r = assemble(
        (open, Relay::pass(1)),
        (lex, Relay::pass(1)),
        (sem, Relay::pass(1)),
        (graph_check, Relay::keep(1)),
    );
    assert_eq!(r.err(), Some(Error::SchemaMismatch("lexical".to_string(), "tokens".to_string())));
}

#[test]
fn check_reports_a_module_that_cannot_be_used() {
    let [open, mut lex, sem, graph_check] = stages();
    lex.inputs.push(PortDecl::new("input", "text"));
    let broken = Error::ModuleLoadFailure("core_parser_lexical.so".to_string());
    assert_eq!(check(&open, &lex, &sem, &graph_check), Err((Call::AddNode, broken)));
    let r = assemble(
        (open, Relay::pass(1)),
        (lex, Relay::pass(1)),
        (sem, Relay::pass(1)),
        (graph_check, Relay::keep(1)),
    );
    assert_eq!(r.err(), Some(Error::ModuleLoadFailure("core_parser_lexical.so".to_string())));
}

#[test]
fn check_reports_a_module_of_another_file() {
    let [open, lex, _, graph_check] = stages();
    let sem = part("core_vm.so", "lexical", "graph");
    let other = Error::ModuleLoadFailure("core_vm.so".to_string());
    assert_eq!(check(&open, &lex, &sem, &graph_check), Err((Call::AddNode, other)));
    let [open, lex, sem, graph_check] = stages();
    let swapped = Error::ModuleLoadFailure("core_parser_semantic.so".to_string());
    assert_eq!(check(&open, &sem, &lex, &graph_check), Err((Call::AddNode, swapped)));
}

#[test]
fn check_reports_a_missing_port() {
    let [open, lex, _, graph_check] = stages();
    let mut no_output = Module::new("core_parser_semantic.so");
    no_output.inputs.push(PortDecl::new("input", "lexical"));
    let missing = Error::PortNotFound("output".to_string());
    assert_eq!(check(&open, &lex, &no_output, &graph_check), Err((Call::Connect, missing)));
    let mut no_input = Module::new("core_parser_lexical.so");
    no_input.outputs.push(PortDecl::new("output", "lexical"));
    let missing = Error::PortNotFound("input".to_string());
    assert_eq!(check(&open, &no_input, &lex, &graph_check).err().map(|e| e.0), Some(Call::AddNode));
    let [_, _, sem, _] = stages();
    assert_eq!(check(&open, &no_input, &sem, &graph_check), Err((Call::Connect, missing)));
}

#[test]
fn check_reports_a_first_stage_that_cannot_be_seeded() {
    let [_, lex, sem, graph_check] = stages();
    let mut open = Module::new("fs_file_open.so");
    open.outputs.push(PortDecl::new("output", "text"));
    let missing = Error::PortNotFound("input".to_string());
    assert_eq!(check(&open, &lex, &sem, &graph_check), Err((Call::GetSender, missing)));
    let built = assemble(
        (open, Relay::pass(1)),
        (lex, Relay::pass(1)),
        (sem, Relay::pass(1)),
        (graph_check, Relay::keep(1)),
    )
    .unwrap();
    assert_eq!(
        built.get_sender("open", "input").err(),
        Some(Error::PortNotFound("input".to_string()))
    );
}

#[test]
fn assemble_wires_each_stage_to_the_next() {
    let [open, lex, sem, graph_check] = stages();
    let sched = assemble(
        (open, Relay::pass(1)),
        (lex, Relay::pass(1)),
        (sem, Relay::pass(1)),
        (graph_check, Relay::keep(1)),
    )
    .unwrap();
    assert_eq!(sched.len(), 4);
    assert_eq!(sched.channels(), 4);
    assert!(sched.pending().is_empty());
    for name in ["open", "lex", "sem"] {
        assert_eq!(sched.agent(name).unwrap().port_set().is_connected("output"), Ok(true));
        assert_eq!(sched.is_retired(name), Ok(false));
    }
    assert_eq!(sched.agent("graph_check").unwrap().port_set().is_connected("output"), Ok(false));
}

#[test]
fn messages_to_a_retired_stage_are_accepted_and_ignored() {
    let [open, lex, sem, graph_check] = stages();
    let (mut sched, _) = run(
        "",
        (open, Relay::pass(1)),
        (lex, Relay::pass(1)),
        (sem, Relay::pass(1)),
        (graph_check, Relay::keep(1)),
    );
    let seed = sched.get_sender("open", "input").unwrap();
    assert_eq!(sched.send(&seed, Msg::new(vec![1])), Ok(()));
    assert_eq!(sched.pending(), vec![0]);
    assert_eq!(sched.join(), 1);
    assert_eq!(sched.agent("graph_check").unwrap().state().kept.len(), 1);
}
