//! A flow-based-programming execution engine.
//!
//! Agents are wired together through named, schema-typed ports and are driven
//! by a coordinator purely in response to message arrival.
//!
//! - [`ports`]: messages, channels and their handles;
//! - [`module`]: the declaration of an agent kind and its schema queries;
//! - [`agent`]: the agent contract and the port bundle of an agent;
//! - [`scheduler`]: the coordinator, its wiring protocol and its run loop;
//! - [`relay`]: a logic that hands messages on, and what a chain of them does;
//! - [`table`]: the string-keyed table that ports and registries are kept in;
//! - [`result`]: the error type.
//!
//! [`run`] assembles and drives the four-stage parsing pipeline; [`check`]
//! tells beforehand whether four modules make such a pipeline.

pub mod agent;
pub mod module;
pub mod ports;
pub mod relay;
pub mod result;
pub mod scheduler;
pub mod table;

use crate::agent::{lemma_fresh_senders_lead_to_fresh_channels, Logic};
use crate::module::Module;
use crate::ports::{ChannelsView, Msg};
use crate::result::{Error, ErrorView};
use crate::scheduler::{drove, lemma_evolved_transitive, Dispatch, Scheduler, SchedulerView};
use vstd::pervasive::unreached;
use vstd::prelude::*;
use vstd::string::{StrSliceExecFns, StringSliceAdditionalSpecFns};

verus! {

/// The calls that assembling the pipeline makes.
#[derive(Clone, Copy, Debug, PartialEq, Eq, Structural)]
pub enum Call {
    /// A stage is registered.
    AddNode,
    /// A stage's `output` is wired to the next stage's `input`.
    Connect,
    /// The handle that seeds the pipeline is fetched.
    GetSender,
}

/// The module file that holds the agent of each stage of the pipeline.
pub open spec fn stage_file(stage: Seq<char>) -> Option<Seq<char>> {
    if stage == "open"@ {
        Some("fs_file_open.so"@)
    } else if stage == "lex"@ {
        Some("core_parser_lexical.so"@)
    } else if stage == "sem"@ {
        Some("core_parser_semantic.so"@)
    } else if stage == "graph_check"@ {
        Some("core_parser_graph_check.so"@)
    } else {
        None
    }
}

/// Why a module cannot be registered as `stage`, if it cannot: it is not
/// the module of the stage's file, or its declaration cannot be used.
pub open spec fn stage_refusal(stage: Seq<char>, module: &Module) -> Option<ErrorView> {
    if stage_file(stage) == Some(module.name@) && module.valid() {
        None
    } else {
        Some(ErrorView::ModuleLoadFailure(module.name@))
    }
}

/// Why the `output` of a stage of kind `from` cannot be wired to the `input`
/// of a stage of kind `to`, if it cannot.
pub open spec fn wiring_refusal(from: &Module, to: &Module) -> Option<ErrorView> {
    match (to.input_schema("input"@), from.output_schema("output"@)) {
        (None, _) => Some(ErrorView::PortNotFound("input"@)),
        (Some(_), None) => Some(ErrorView::PortNotFound("output"@)),
        (Some(schema_in), Some(schema_out)) => if schema_out == schema_in {
            None
        } else {
            Some(ErrorView::SchemaMismatch(schema_out, schema_in))
        },
    }
}

/// The first of two refusals, each with the call that meets it.
pub open spec fn or_else(
    first: Option<ErrorView>,
    call: Call,
    rest: Option<(Call, ErrorView)>,
) -> Option<(Call, ErrorView)> {
    match first {
        Some(e) => Some((call, e)),
        None => rest,
    }
}

/// Why the pipeline cannot be assembled from the four modules, if it
/// cannot, and at which call: the four stages are registered in the order
/// `open`, `lex`, `sem`, `graph_check`, each from the module of its file, and
/// then each stage is wired to the next.
pub open spec fn assembly_refusal(
    open: &Module,
    lex: &Module,
    sem: &Module,
    graph_check: &Module,
) -> Option<(Call, ErrorView)> {
    or_else(
        stage_refusal("open"@, open),
        Call::AddNode,
        or_else(
            stage_refusal("lex"@, lex),
            Call::AddNode,
            or_else(
                stage_refusal("sem"@, sem),
                Call::AddNode,
                or_else(
                    stage_refusal("graph_check"@, graph_check),
                    Call::AddNode,
                    or_else(
                        wiring_refusal(open, lex),
                        Call::Connect,
                        or_else(
                            wiring_refusal(lex, sem),
                            Call::Connect,
                            or_else(wiring_refusal(sem, graph_check), Call::Connect, None),
                        ),
                    ),
                ),
            ),
        ),
    )
}

/// Why the pipeline cannot be run on the four modules, if it cannot, and at
/// which call: it cannot be assembled, or the first stage has no port
/// `input` to seed.
pub open spec fn refusal(open: &Module, lex: &Module, sem: &Module, graph_check: &Module) -> Option<
    (Call, ErrorView),
> {
    match assembly_refusal(open, lex, sem, graph_check) {
        Some(refused) => Some(refused),
        None => if open.input_schema("input"@).is_none() {
            Some((Call::GetSender, ErrorView::PortNotFound("input"@)))
        } else {
            None
        },
    }
}

/// The graph `built` with one more agent, of kind `part.0` and with logic
/// `part.1`, registered under `name`, unless building failed before or the
/// module cannot be registered as that stage.
pub open spec fn then_add<L: Logic>(
    built: Result<SchedulerView<L>, ErrorView>,
    name: Seq<char>,
    part: (Module, L),
) -> Result<SchedulerView<L>, ErrorView> {
    match built {
        Err(e) => Err(e),
        Ok(graph) => match stage_refusal(name, &part.0) {
            None => Ok(graph.added(name, part.0, part.1)),
            Some(e) => Err(e),
        },
    }
}

/// The graph `built` with the scalar output `output` of `from` wired to the
/// scalar input `input` of `to`, unless building failed before or the wiring
/// is refused.
pub open spec fn then_connect<L: Logic>(
    built: Result<SchedulerView<L>, ErrorView>,
    from: Seq<char>,
    to: Seq<char>,
) -> Result<SchedulerView<L>, ErrorView> {
    match built {
        Err(e) => Err(e),
        Ok(graph) => match graph.wiring_plan(from, "output"@, None, to, "input"@, None) {
            Ok((a, b)) => Ok(graph.wired(a as int, "output"@, None, b as int, "input"@, None)),
            Err(e) => Err(e),
        },
    }
}

/// The graph without agents and channels.
pub open spec fn nothing<L: Logic>() -> SchedulerView<L> {
    SchedulerView {
        comps: Seq::empty(),
        names: Map::empty(),
        queue: Seq::empty(),
        net: ChannelsView { chans: Seq::empty(), notices: Seq::empty() },
    }
}

/// The four stages registered, in the order `open`, `lex`, `sem`,
/// `graph_check`, each from the module of its file.
pub open spec fn registered<L: Logic>(
    open: (Module, L),
    lex: (Module, L),
    sem: (Module, L),
    graph_check: (Module, L),
) -> Result<SchedulerView<L>, ErrorView> {
    then_add(
        then_add(then_add(then_add(Ok(nothing()), "open"@, open), "lex"@, lex), "sem"@, sem),
        "graph_check"@,
        graph_check,
    )
}

/// The pipeline `open` → `lex` → `sem` → `graph_check`, each stage's `output`
/// wired to the next stage's `input`, or the first error that building it
/// meets.
pub open spec fn assembled<L: Logic>(
    open: (Module, L),
    lex: (Module, L),
    sem: (Module, L),
    graph_check: (Module, L),
) -> Result<SchedulerView<L>, ErrorView> {
    then_connect(
        then_connect(
            then_connect(registered(open, lex, sem, graph_check), "open"@, "lex"@),
            "lex"@,
            "sem"@,
        ),
        "sem"@,
        "graph_check"@,
    )
}

/// The pipeline that [`assembled`] describes, where it can be built.
pub open spec fn pipeline<L: Logic>(
    open: (Module, L),
    lex: (Module, L),
    sem: (Module, L),
    graph_check: (Module, L),
) -> SchedulerView<L>
    recommends
        assembled(open, lex, sem, graph_check).is_ok(),
{
    match assembled(open, lex, sem, graph_check) {
        Ok(graph) => graph,
        Err(_) => arbitrary(),
    }
}

/// The handle that seeds the graph leads to one of its channels.
pub open spec fn seedable<L: Logic>(graph: SchedulerView<L>) -> bool {
    match graph.sender_of("open"@, "input"@) {
        Ok(end) => end.chan < graph.net.chans.len(),
        Err(_) => false,
    }
}

/// The message that seeds the pipeline: the path of the graph description to
/// read, without a routing tag.
pub open spec fn is_seed(msg: Msg) -> bool {
    msg.action.is_none() && msg.payload@ == "/home/denis/test.fbp".spec_bytes()
}

/// The pipeline `graph` after `seed` was sent to the `input` of `open` and
/// the coordinator was started.
pub open spec fn started<L: Logic>(graph: SchedulerView<L>, seed: Msg) -> SchedulerView<L> {
    match graph.sender_of("open"@, "input"@) {
        Ok(end) => {
            let fed = graph.delivered(end.chan as int, seed);
            SchedulerView { queue: fed.queue + fed.seeds(fed.comps.len() as int), ..fed }
        },
        Err(_) => graph,
    }
}

/// The run loop drove the pipeline `graph`, seeded and started, to the graph
/// `after` in `turns` turns.
pub open spec fn driven<L: Logic>(
    graph: SchedulerView<L>,
    after: SchedulerView<L>,
    turns: usize,
) -> bool {
    exists|seed: Msg, states: Seq<SchedulerView<L>>, reports: Seq<Dispatch>|
        is_seed(seed) && #[trigger] drove(started(graph, seed), after, turns, states, reports)
}

/// The names of the stages and of their ports are pairwise different where
/// the pipeline tells them apart.
proof fn lemma_names_differ()
    ensures
        "open"@ != "lex"@,
        "open"@ != "sem"@,
        "open"@ != "graph_check"@,
        "lex"@ != "sem"@,
        "lex"@ != "graph_check"@,
        "sem"@ != "graph_check"@,
        "input"@ != "option"@,
        "input"@ != "accumulator"@,
{
    reveal_strlit("open");
    reveal_strlit("lex");
    reveal_strlit("sem");
    reveal_strlit("graph_check");
    reveal_strlit("input");
    reveal_strlit("option");
    reveal_strlit("accumulator");
    assert("lex"@[0] != "sem"@[0]);
    assert("open"@.len() != "lex"@.len());
    assert("open"@.len() != "sem"@.len());
    assert("open"@.len() != "graph_check"@.len());
    assert("lex"@.len() != "graph_check"@.len());
    assert("sem"@.len() != "graph_check"@.len());
    assert("input"@.len() != "option"@.len());
    assert("input"@.len() != "accumulator"@.len());
}

/// Whether a sound graph admits the wiring of `from` to `to` is decided by
/// the modules of the two agents.
proof fn lemma_plan_by_modules<L: Logic>(graph: SchedulerView<L>, from: Seq<char>, to: Seq<char>)
    requires
        graph.wf(),
        graph.names.contains_key(from),
        graph.names.contains_key(to),
    ensures
        match wiring_refusal(
            &graph.comps[graph.names[from] as int].module,
            &graph.comps[graph.names[to] as int].module,
        ) {
            None => graph.wiring_plan(from, "output"@, None, to, "input"@, None) == Ok::<
                _,
                ErrorView,
            >((graph.names[from], graph.names[to])),
            Some(e) => graph.wiring_plan(from, "output"@, None, to, "input"@, None) == Err::<
                (usize, usize),
                _,
            >(e),
        },
{
    lemma_names_differ();
    let a = graph.names[from] as int;
    let b = graph.names[to] as int;
    assert(graph.comps[a].wf(a));
    assert(graph.comps[b].wf(b));
    let consumer = graph.comps[b].ports;
    let producer = graph.comps[a].ports;
    assert(consumer.senders().contains_key("input"@) <==> consumer.inputs.contains_key("input"@));
    assert(consumer.inputs.contains_key("input"@) <==> graph.comps[b].module.input_schema(
        "input"@,
    ).is_some());
    assert(producer.outputs.contains_key("output"@) <==> graph.comps[a].module.output_schema(
        "output"@,
    ).is_some());
}

/// Whether a sound graph hands out the seeding handle is decided by the
/// module of its first stage.
proof fn lemma_seed_by_module<L: Logic>(graph: SchedulerView<L>)
    requires
        graph.wf(),
        graph.names.contains_key("open"@),
    ensures
        graph.comps[graph.names["open"@] as int].module.input_schema("input"@).is_some()
            ==> graph.sender_of("open"@, "input"@).is_ok(),
        graph.comps[graph.names["open"@] as int].module.input_schema("input"@).is_none()
            ==> graph.sender_of("open"@, "input"@) == Err::<crate::ports::Endpoint, _>(
            ErrorView::PortNotFound("input"@),
        ),
{
    lemma_names_differ();
    let a = graph.names["open"@] as int;
    assert(graph.comps[a].wf(a));
    let ports = graph.comps[a].ports;
    assert(ports.senders().contains_key("input"@) <==> ports.inputs.contains_key("input"@));
}

/// The four stages stand in the graph under their names and in their
/// order, and every handle into the first stage leads to a channel.
spec fn staged<L: Logic>(
    graph: SchedulerView<L>,
    count: int,
    open: Module,
    lex: Module,
    sem: Module,
    graph_check: Module,
) -> bool {
    &&& graph.wf()
    &&& graph.comps.len() == count
    &&& graph.queue.len() == 0
    &&& count >= 1 ==> graph.names.contains_key("open"@) && graph.names["open"@] == 0
        && graph.comps[0].module == open
    &&& count >= 2 ==> graph.names.contains_key("lex"@) && graph.names["lex"@] == 1
        && graph.comps[1].module == lex
    &&& count >= 3 ==> graph.names.contains_key("sem"@) && graph.names["sem"@] == 2
        && graph.comps[2].module == sem
    &&& count >= 4 ==> graph.names.contains_key("graph_check"@) && graph.names["graph_check"@] == 3
        && graph.comps[3].module == graph_check
    &&& count >= 1 ==> forall|n: Seq<char>| #[trigger]
        graph.comps[0].ports.senders().contains_key(n) ==> graph.comps[0].ports.senders()[n].chan
            < graph.net.chans.len()
}

/// Registering a further stage keeps the stages that stand in the graph.
proof fn lemma_staged_add<L: Logic>(
    graph: SchedulerView<L>,
    count: int,
    name: Seq<char>,
    part: (Module, L),
    open: Module,
    lex: Module,
    sem: Module,
    graph_check: Module,
)
    requires
        0 <= count < 4,
        staged(graph, count, open, lex, sem, graph_check),
        graph.added(name, part.0, part.1).wf(),
        graph.added(name, part.0, part.1).net.chans.len() <= usize::MAX,
        part.0.valid(),
        count == 0 ==> name == "open"@ && part.0 == open,
        count == 1 ==> name == "lex"@ && part.0 == lex,
        count == 2 ==> name == "sem"@ && part.0 == sem,
        count == 3 ==> name == "graph_check"@ && part.0 == graph_check,
    ensures
        staged(graph.added(name, part.0, part.1), count + 1, open, lex, sem, graph_check),
{
    lemma_names_differ();
    let after = graph.added(name, part.0, part.1);
    if count == 0 {
        assert forall|n: Seq<char>| #[trigger]
            after.comps[0].ports.senders().contains_key(n) implies after.comps[0].ports.senders()[n].chan
            < after.net.chans.len() by {
            lemma_fresh_senders_lead_to_fresh_channels(
                &part.0,
                0,
                graph.net.chans.len() as int,
                n,
            );
        }
    } else {
        assert(after.comps[0] == graph.comps[0]);
        assert forall|n: Seq<char>| #[trigger]
            after.comps[0].ports.senders().contains_key(n) implies after.comps[0].ports.senders()[n].chan
            < after.net.chans.len() by {
            assert(graph.comps[0].ports.senders().contains_key(n));
        }
    }
}

/// Wiring one stage to another keeps the stages that stand in the graph.
proof fn lemma_staged_connect<L: Logic>(
    graph: SchedulerView<L>,
    a: int,
    b: int,
    open: Module,
    lex: Module,
    sem: Module,
    graph_check: Module,
)
    requires
        staged(graph, 4, open, lex, sem, graph_check),
        0 <= a < 4,
        0 <= b < 4,
        graph.wired(a, "output"@, None, b, "input"@, None).wf(),
    ensures
        staged(
            graph.wired(a, "output"@, None, b, "input"@, None),
            4,
            open,
            lex,
            sem,
            graph_check,
        ),
{
    let after = graph.wired(a, "output"@, None, b, "input"@, None);
    assert(after.comps[0].ports.senders() =~= graph.comps[0].ports.senders());
    assert forall|n: Seq<char>| #[trigger]
        after.comps[0].ports.senders().contains_key(n) implies after.comps[0].ports.senders()[n].chan
        < after.net.chans.len() by {
        assert(graph.comps[0].ports.senders().contains_key(n));
    }
}

/// The module file that holds the agent of the stage `stage`.
pub fn module_file(stage: &str) -> (r: Option<String>)
    ensures
        match r {
            Some(file) => stage_file(stage@) == Some(file@),
            None => stage_file(stage@).is_none(),
        },
{
    let name = stage.to_owned();
    if name == "open".to_owned() {
        Some("fs_file_open.so".to_owned())
    } else if name == "lex".to_owned() {
        Some("core_parser_lexical.so".to_owned())
    } else if name == "sem".to_owned() {
        Some("core_parser_semantic.so".to_owned())
    } else if name == "graph_check".to_owned() {
        Some("core_parser_graph_check.so".to_owned())
    } else {
        None
    }
}

/// Tests whether `module` can be registered as `stage`.
fn check_stage(stage: &str, module: &Module) -> (r: Result<(), Error>)
    ensures
        match (r, stage_refusal(stage@, module)) {
            (Ok(()), None) => true,
            (Err(e), Some(f)) => e@ == f,
            _ => false,
        },
{
    let fits = match module_file(stage) {
        Some(file) => file == module.name,
        None => false,
    };
    if fits && module.is_valid() {
        Ok(())
    } else {
        Err(Error::ModuleLoadFailure(module.name.clone()))
    }
}

/// Tests whether the `output` of a stage of kind `from` can be wired to the
/// `input` of a stage of kind `to`.
fn check_wiring(from: &Module, to: &Module) -> (r: Result<(), Error>)
    ensures
        match (r, wiring_refusal(from, to)) {
            (Ok(()), None) => true,
            (Err(e), Some(f)) => e@ == f,
            _ => false,
        },
{
    let schema_in = match to.get_schema_input("input") {
        Ok(schema) => schema,
        Err(e) => { return Err(e); },
    };
    let schema_out = match from.get_schema_output("output") {
        Ok(schema) => schema,
        Err(e) => { return Err(e); },
    };
    if schema_out == schema_in {
        Ok(())
    } else {
        Err(Error::SchemaMismatch(schema_out, schema_in))
    }
}

/// Tests whether the pipeline can be run on the four modules, and says
/// which call would refuse, and why, where it cannot.
pub fn check(open: &Module, lex: &Module, sem: &Module, graph_check: &Module) -> (r: Result<
    (),
    (Call, Error),
>)
    ensures
        match (r, refusal(open, lex, sem, graph_check)) {
            (Ok(()), None) => true,
            (Err((call, e)), Some((at, f))) => call == at && e@ == f,
            _ => false,
        },
{
    match check_stage("open", open) {
        Ok(()) => {},
        Err(e) => { return Err((Call::AddNode, e)); },
    }
    match check_stage("lex", lex) {
        Ok(()) => {},
        Err(e) => { return Err((Call::AddNode, e)); },
    }
    match check_stage("sem", sem) {
        Ok(()) => {},
        Err(e) => { return Err((Call::AddNode, e)); },
    }
    match check_stage("graph_check", graph_check) {
        Ok(()) => {},
        Err(e) => { return Err((Call::AddNode, e)); },
    }
    match check_wiring(open, lex) {
        Ok(()) => {},
        Err(e) => { return Err((Call::Connect, e)); },
    }
    match check_wiring(lex, sem) {
        Ok(()) => {},
        Err(e) => { return Err((Call::Connect, e)); },
    }
    match check_wiring(sem, graph_check) {
        Ok(()) => {},
        Err(e) => { return Err((Call::Connect, e)); },
    }
    match open.get_schema_input("input") {
        Ok(_) => Ok(()),
        Err(e) => Err((Call::GetSender, e)),
    }
}

/// Registers `part` as the stage `stage`.
fn add_stage<L: Logic>(sched: &mut Scheduler<L>, stage: &str, part: (Module, L)) -> (r: Result<
    (),
    Error,
>)
    requires
        old(sched).wf(),
    ensures
        final(sched).wf(),
        match (r, stage_refusal(stage@, &part.0)) {
            (Ok(()), None) => final(sched)@ == old(sched)@.added(stage@, part.0, part.1),
            (Err(e), Some(f)) => e@ == f && final(sched)@ == old(sched)@,
            _ => false,
        },
{
    match check_stage(stage, &part.0) {
        Ok(()) => {},
        Err(e) => { return Err(e); },
    }
    match sched.add_node(stage, part.0, part.1) {
        Ok(_) => Ok(()),
        Err(e) => Err(e),
    }
}

/// Builds the pipeline `open` → `lex` → `sem` → `graph_check` from the four
/// stages, each given by the module of its file and the state of its logic:
/// registers the four in this order and wires each stage's `output` to the
/// next stage's `input`. It stops at the first call that refuses.
pub fn assemble<L: Logic>(
    open: (Module, L),
    lex: (Module, L),
    sem: (Module, L),
    graph_check: (Module, L),
) -> (r: Result<Scheduler<L>, Error>)
    ensures
        match (r, assembled(open, lex, sem, graph_check)) {
            (Ok(sched), Ok(graph)) => sched.wf() && sched@ == graph,
            (Err(e), Err(f)) => e@ == f,
            _ => false,
        },
        match (r, assembly_refusal(&open.0, &lex.0, &sem.0, &graph_check.0)) {
            (Ok(sched), None) => open.0.input_schema("input"@).is_some() ==> seedable(sched@),
            (Err(e), Some((call, f))) => e@ == f,
            _ => false,
        },
{
    let ghost mods = (open.0, lex.0, sem.0, graph_check.0);
    let mut sched: Scheduler<L> = Scheduler::new();
    proof {
        sched.lemma_view_wf();
        assert(sched@.comps =~= Seq::<crate::scheduler::CompView<L>>::empty());
        assert(sched@.queue =~= Seq::<usize>::empty());
        assert(sched@.net.chans =~= Seq::<crate::ports::ChannelView>::empty());
        assert(sched@.net.notices =~= Seq::<usize>::empty());
        assert(sched@ == nothing::<L>());
        assert(staged(sched@, 0, mods.0, mods.1, mods.2, mods.3));
    }
    let ghost before = sched@;
    match add_stage(&mut sched, "open", open) {
        Ok(()) => {},
        Err(e) => { return Err(e); },
    }
    proof {
        sched.lemma_view_wf();
        lemma_staged_add(before, 0, "open"@, open, mods.0, mods.1, mods.2, mods.3);
    }
    let ghost before = sched@;
    match add_stage(&mut sched, "lex", lex) {
        Ok(()) => {},
        Err(e) => { return Err(e); },
    }
    proof {
        sched.lemma_view_wf();
        lemma_staged_add(before, 1, "lex"@, lex, mods.0, mods.1, mods.2, mods.3);
    }
    let ghost before = sched@;
    match add_stage(&mut sched, "sem", sem) {
        Ok(()) => {},
        Err(e) => { return Err(e); },
    }
    proof {
        sched.lemma_view_wf();
        lemma_staged_add(before, 2, "sem"@, sem, mods.0, mods.1, mods.2, mods.3);
    }
    let ghost before = sched@;
    match add_stage(&mut sched, "graph_check", graph_check) {
        Ok(()) => {},
        Err(e) => { return Err(e); },
    }
    proof {
        sched.lemma_view_wf();
        lemma_staged_add(before, 3, "graph_check"@, graph_check, mods.0, mods.1, mods.2, mods.3);
        assert(Ok::<_, ErrorView>(sched@) == registered(open, lex, sem, graph_check));
    }
    let ghost before = sched@;
    proof {
        lemma_plan_by_modules(before, "open"@, "lex"@);
    }
    match sched.connect("open", "output", "lex", "input") {
        Ok(()) => {},
        Err(e) => { return Err(e); },
    }
    proof {
        sched.lemma_view_wf();
        lemma_staged_connect(before, 0, 1, mods.0, mods.1, mods.2, mods.3);
    }
    let ghost before = sched@;
    proof {
        lemma_plan_by_modules(before, "lex"@, "sem"@);
    }
    match sched.connect("lex", "output", "sem", "input") {
        Ok(()) => {},
        Err(e) => { return Err(e); },
    }
    proof {
        sched.lemma_view_wf();
        lemma_staged_connect(before, 1, 2, mods.0, mods.1, mods.2, mods.3);
    }
    let ghost before = sched@;
    proof {
        lemma_plan_by_modules(before, "sem"@, "graph_check"@);
    }
    match sched.connect("sem", "output", "graph_check", "input") {
        Ok(()) => {},
        Err(e) => { return Err(e); },
    }
    proof {
        sched.lemma_view_wf();
        lemma_staged_connect(before, 2, 3, mods.0, mods.1, mods.2, mods.3);
        lemma_seed_by_module(sched@);
        if open.0.input_schema("input"@).is_some() {
            let ports = sched@.comps[0].ports;
            assert(ports.senders().contains_key("input"@));
        }
    }
    Ok(sched)
}

/// Builds the pipeline `open` → `lex` → `sem` → `graph_check`, seeds the
/// `input` of `open` with the path of the graph description to read, starts
/// the coordinator and runs the graph until no agent waits for a step.
/// Returns the coordinator as the run left it, with the number of turns that
/// the run loop took.
///
/// The four stages have to be such that the pipeline can be assembled and
/// seeded; [`check`] tests this. `path_fbp` is the graph description that the
/// caller asks for; the seed is the fixed path `/home/denis/test.fbp`.
pub fn run<L: Logic>(
    path_fbp: &str,
    open: (Module, L),
    lex: (Module, L),
    sem: (Module, L),
    graph_check: (Module, L),
) -> (r: (Scheduler<L>, usize))
    requires
        refusal(&open.0, &lex.0, &sem.0, &graph_check.0).is_none(),
    ensures
        r.0.wf(),
        assembled(open, lex, sem, graph_check).is_ok(),
        pipeline(open, lex, sem, graph_check).evolved(r.0@),
        r.0@.queue.len() == 0 || r.1 == usize::MAX,
        driven(pipeline(open, lex, sem, graph_check), r.0@, r.1),
{
    let mut sched = match assemble(open, lex, sem, graph_check) {
        Ok(sched) => sched,
        Err(_) => unreached(),
    };
    let ghost graph = sched@;
    let seed = match sched.get_sender("open", "input") {
        Ok(sender) => sender,
        Err(_) => unreached(),
    };
    let path = "/home/denis/test.fbp";
    let msg = Msg::new(path.as_bytes_vec());
    let ghost first = msg;
    match sched.send(&seed, msg) {
        Ok(()) => {},
        Err(_) => unreached(),
    }
    sched.start();
    let ghost begun = sched@;
    let turns = sched.join();
    proof {
        lemma_evolved_transitive(graph, begun, sched@);
        let (states, reports) = choose|states: Seq<SchedulerView<L>>, reports: Seq<Dispatch>|
            drove(begun, sched@, turns, states, reports);
        assert(is_seed(first) && drove(started(graph, first), sched@, turns, states, reports));
    }
    (sched, turns)
}

} // verus!
