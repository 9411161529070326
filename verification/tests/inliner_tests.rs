use dfpp::algebra::{Equality, Term};
use dfpp::args::{AnalysisCtrl, InconsequentialCallRemovalPolicy, PruningStrategy};
use dfpp::global_location::{Link, Location};
use dfpp::inliner::SkipAnnotatedFunctionSelector;
use dfpp::memo::Inliner;
use dfpp::regal::{Argument, Body, Call, Program, Target};
use dfpp::serializers::SerializableCallOnlyFlow;

const ARG_BLOCK: u32 = 1000;

fn loc(block: u32) -> Location {
    Location { block, statement_index: 0 }
}

fn link(function: usize, block: u32) -> Link {
    Link { function, location: loc(block) }
}

fn arg(local: u32, dependencies: Vec<Target>) -> Option<Argument> {
    Some(Argument { local, dependencies, writeable: false })
}

fn call(function: u64, arguments: Vec<Option<Argument>>, return_to: Option<u32>) -> Call {
    Call { function, arguments, return_to, ctrl_deps: vec![], generator: None }
}

fn body(calls: Vec<(Location, Call)>, return_deps: Vec<Target>, args: usize) -> Body {
    Body {
        calls,
        return_deps,
        return_arg_deps: (0..args).map(|_| vec![]).collect(),
        equations: vec![],
    }
}

fn program(bodies: Vec<Body>) -> Program {
    Program { bodies, from_generator_fn: None, future_poll_fn: None }
}

fn eq(a: u32, b: u32) -> Equality<u32> {
    Equality::new(Term::new_base(a), Term::new_base(b))
}

fn analyze(program: &Program, ctrl: AnalysisCtrl, marked: Vec<u64>) -> SerializableCallOnlyFlow {
    assert!(program.check());
    let oracle = SkipAnnotatedFunctionSelector { marked };
    let mut inliner = Inliner::new(program, &oracle, ctrl);
    assert!(inliner.get_inlined_graph(0).is_some());
    let flow = inliner.to_call_only_flow(0, ARG_BLOCK).unwrap();
    SerializableCallOnlyFlow::from(inliner.gli(), &flow)
}

fn deps_of<'a>(flow: &'a SerializableCallOnlyFlow, chain: &[Link]) -> &'a dfpp::serializers::RawCallDeps {
    &flow
        .location_dependencies
        .iter()
        .find(|(l, _)| l.links().as_slice() == chain)
        .unwrap_or_else(|| panic!("no call at {:?}", chain))
        .1
}

fn has_call(flow: &SerializableCallOnlyFlow, chain: &[Link]) -> bool {
    flow.location_dependencies.iter().any(|(l, _)| l.links().as_slice() == chain)
}

fn input_has(flow: &SerializableCallOnlyFlow, call: &[Link], position: usize, source: &[Link]) -> bool {
    let deps = deps_of(flow, call);
    position < deps.input_deps.len()
        && deps.input_deps[position].iter().any(|l| l.links().as_slice() == source)
}

fn depends(flow: &SerializableCallOnlyFlow, call: &[Link], source: &[Link]) -> bool {
    let deps = deps_of(flow, call);
    deps.ctrl_deps.iter().any(|l| l.links().as_slice() == source)
        || deps.input_deps.iter().any(|d| d.iter().any(|l| l.links().as_slice() == source))
}

fn connects(flow: &SerializableCallOnlyFlow, from: &[Link], to: &[Link]) -> bool {
    let mut seen: Vec<Vec<Link>> = vec![];
    let mut stack: Vec<Vec<Link>> = vec![to.to_vec()];
    while let Some(at) = stack.pop() {
        if seen.contains(&at) {
            continue;
        }
        seen.push(at.clone());
        if !has_call(flow, &at) {
            continue;
        }
        let deps = deps_of(flow, &at);
        for l in deps.ctrl_deps.iter().chain(deps.input_deps.iter().flatten()) {
            if l.links().as_slice() == from {
                return true;
            }
            stack.push(l.links().clone());
        }
    }
    false
}

const GET: u64 = 100;
const DP: u64 = 101;
const SEND: u64 = 102;

/// `main` calls `get()`, hands the result to `dp()` and its result to
/// `send()`; none of the three has a body.
fn chain_program() -> Program {
    program(vec![body(
        vec![
            (loc(0), call(GET, vec![], Some(1))),
            (loc(1), call(DP, vec![arg(1, vec![Target::Call(loc(0))])], Some(2))),
            (loc(2), call(SEND, vec![arg(2, vec![Target::Call(loc(1))])], None)),
        ],
        vec![],
        0,
    )])
}

#[test]
fn chain_of_opaque_calls() {
    let flow = analyze(&chain_program(), AnalysisCtrl::new(), vec![]);
    assert_eq!(flow.location_dependencies.len(), 3);
    assert!(input_has(&flow, &[link(0, 2)], 0, &[link(0, 1)]));
    assert!(input_has(&flow, &[link(0, 1)], 0, &[link(0, 0)]));
    assert_eq!(deps_of(&flow, &[link(0, 2)]).input_deps.len(), 1);
    assert_eq!(deps_of(&flow, &[link(0, 2)]).input_deps[0].len(), 1);
    assert_eq!(deps_of(&flow, &[link(0, 1)]).input_deps[0].len(), 1);
    assert!(connects(&flow, &[link(0, 0)], &[link(0, 1)]));
    assert!(connects(&flow, &[link(0, 1)], &[link(0, 2)]));
    assert!(connects(&flow, &[link(0, 0)], &[link(0, 2)]));
    assert!(!depends(&flow, &[link(0, 2)], &[link(0, 0)]));
    assert_eq!(deps_of(&flow, &[link(0, 0)]).input_deps.len(), 0);
    assert!(flow.return_dependencies.is_empty());
}

#[test]
fn analysis_is_deterministic() {
    let program = chain_program();
    let one = analyze(&program, AnalysisCtrl::new(), vec![]);
    let two = analyze(&program, AnalysisCtrl::new(), vec![]);
    assert_eq!(one.location_dependencies.len(), two.location_dependencies.len());
    for (l, deps) in one.location_dependencies.iter() {
        let other = deps_of(&two, l.links());
        assert_eq!(deps.input_deps.len(), other.input_deps.len());
        for (i, d) in deps.input_deps.iter().enumerate() {
            assert_eq!(d.len(), other.input_deps[i].len());
            for s in d {
                assert!(other.input_deps[i].iter().any(|o| o.links() == s.links()));
            }
        }
    }
}

/// `main` calls `get()`, hands the result to `dp(x)`, which has a body
/// without calls and returns what it computes from `x`, and hands the result
/// of `dp` to `send()`.
fn inlining_program() -> Program {
    let mut dp = body(vec![], vec![Target::Argument(0)], 1);
    dp.equations = vec![eq(2, 1), eq(0, 2)];
    program(vec![
        body(
            vec![
                (loc(0), call(GET, vec![], Some(1))),
                (loc(1), call(1, vec![arg(1, vec![Target::Call(loc(0))])], Some(2))),
                (loc(2), call(SEND, vec![arg(2, vec![Target::Call(loc(1))])], None)),
            ],
            vec![],
            0,
        ),
        dp,
    ])
}

#[test]
fn inlined_callee_is_elided() {
    let flow = analyze(&inlining_program(), AnalysisCtrl::new(), vec![]);
    assert!(!has_call(&flow, &[link(0, 1)]));
    assert!(has_call(&flow, &[link(0, 0)]));
    assert!(input_has(&flow, &[link(0, 2)], 0, &[link(0, 0)]));
    assert_eq!(deps_of(&flow, &[link(0, 2)]).input_deps[0].len(), 1);
}

#[test]
fn marked_callee_is_not_inlined() {
    let flow = analyze(&inlining_program(), AnalysisCtrl::new(), vec![1]);
    assert!(has_call(&flow, &[link(0, 1)]));
    assert!(input_has(&flow, &[link(0, 2)], 0, &[link(0, 1)]));
    assert!(!depends(&flow, &[link(0, 2)], &[link(0, 0)]));
}

#[test]
fn no_inlining_without_recursive_analysis() {
    let mut ctrl = AnalysisCtrl::new();
    ctrl.use_recursive_analysis = false;
    let flow = analyze(&inlining_program(), ctrl, vec![]);
    assert!(has_call(&flow, &[link(0, 1)]));
}

#[test]
fn new_edge_survives_pruning_through_equations() {
    let mut ctrl = AnalysisCtrl::new();
    ctrl.pruning_strategy = PruningStrategy::NewEdges;
    let flow = analyze(&inlining_program(), ctrl, vec![]);
    assert!(input_has(&flow, &[link(0, 2)], 0, &[link(0, 0)]));
}

#[test]
fn new_edge_without_equations_is_pruned() {
    let mut p = inlining_program();
    p.bodies[1].equations = vec![];
    let mut ctrl = AnalysisCtrl::new();
    ctrl.pruning_strategy = PruningStrategy::NewEdges;
    let flow = analyze(&p, ctrl, vec![]);
    assert!(has_call(&flow, &[link(0, 2)]));
    assert!(!depends(&flow, &[link(0, 2)], &[link(0, 0)]));
    let mut ctrl = AnalysisCtrl::new();
    ctrl.pruning_strategy = PruningStrategy::NewEdges;
    ctrl.use_pruning = false;
    let flow = analyze(&p, ctrl, vec![]);
    assert!(input_has(&flow, &[link(0, 2)], 0, &[link(0, 0)]));
}

#[test]
fn nested_calls_get_nested_locations() {
    // `main` calls `outer(x)`, which hands `x` to `SEND`.
    let outer = body(
        vec![(loc(5), call(SEND, vec![arg(1, vec![Target::Argument(0)])], None))],
        vec![],
        1,
    );
    let p = program(vec![
        body(
            vec![
                (loc(0), call(GET, vec![], Some(1))),
                (loc(1), call(1, vec![arg(1, vec![Target::Call(loc(0))])], None)),
            ],
            vec![],
            0,
        ),
        outer,
    ]);
    let mut ctrl = AnalysisCtrl::new();
    ctrl.use_pruning = false;
    let flow = analyze(&p, ctrl, vec![]);
    let nested = [link(0, 1), link(1, 5)];
    assert!(has_call(&flow, &nested));
    assert!(!has_call(&flow, &[link(0, 1)]));
    assert!(input_has(&flow, &nested, 0, &[link(0, 0)]));
}

#[test]
fn self_recursion_terminates() {
    // `f(x)` calls itself and `SEND`.
    let f = body(
        vec![
            (loc(0), call(0, vec![arg(1, vec![Target::Argument(0)])], Some(2))),
            (loc(1), call(SEND, vec![arg(2, vec![Target::Call(loc(0))])], None)),
        ],
        vec![Target::Call(loc(0))],
        1,
    );
    let p = program(vec![f]);
    let flow = analyze(&p, AnalysisCtrl::new(), vec![]);
    assert!(has_call(&flow, &[link(0, 0)]));
    assert!(input_has(&flow, &[link(0, 1)], 0, &[link(0, 0)]));
    assert_eq!(flow.return_dependencies.len(), 1);
}

#[test]
fn mutual_recursion_terminates() {
    // `f` calls `g`, and `g` calls `f`.
    let f = body(vec![(loc(0), call(1, vec![arg(1, vec![Target::Argument(0)])], Some(2)))], vec![
        Target::Call(loc(0)),
    ], 1);
    let g = body(vec![(loc(3), call(0, vec![arg(1, vec![Target::Argument(0)])], Some(2)))], vec![
        Target::Call(loc(3)),
    ], 1);
    let p = program(vec![f, g]);
    assert!(p.check());
    let oracle = SkipAnnotatedFunctionSelector { marked: vec![] };
    let mut ctrl = AnalysisCtrl::new();
    ctrl.use_pruning = false;
    let mut inliner = Inliner::new(&p, &oracle, ctrl);
    let graph = inliner.get_inlined_graph(0).unwrap();
    assert_eq!(graph.inlined_functions_count(), 1);
    assert_eq!(graph.max_call_stack_depth(), 1);
    assert_eq!(inliner.cache_size(), 2);
    let flow = inliner.to_call_only_flow(0, ARG_BLOCK).unwrap();
    let flow = SerializableCallOnlyFlow::from(inliner.gli(), &flow);
    // The call of `f` inside `g` stays, nested under the call of `g` in `f`.
    assert!(has_call(&flow, &[link(0, 0), link(1, 3)]));
    assert!(!has_call(&flow, &[link(0, 0)]));
}

#[test]
fn field_sensitive_producers() {
    const PRODUCE_USIZE: u64 = 200;
    const PRODUCE_STRING: u64 = 201;
    const READ_USIZE: u64 = 202;
    const READ_STRING: u64 = 203;
    let p = program(vec![body(
        vec![
            (loc(0), call(PRODUCE_USIZE, vec![], Some(1))),
            (loc(1), call(PRODUCE_STRING, vec![], Some(2))),
            (loc(2), call(READ_USIZE, vec![arg(1, vec![Target::Call(loc(0))])], None)),
            (loc(3), call(READ_STRING, vec![arg(2, vec![Target::Call(loc(1))])], None)),
        ],
        vec![],
        0,
    )]);
    let flow = analyze(&p, AnalysisCtrl::new(), vec![]);
    assert!(depends(&flow, &[link(0, 2)], &[link(0, 0)]));
    assert!(!depends(&flow, &[link(0, 3)], &[link(0, 0)]));
    assert!(depends(&flow, &[link(0, 3)], &[link(0, 1)]));
    assert!(!depends(&flow, &[link(0, 2)], &[link(0, 1)]));
}

#[test]
fn arguments_are_numbered_from_zero() {
    let p = program(vec![body(
        vec![
            (loc(0), call(GET, vec![], Some(1))),
            (loc(1), call(DP, vec![], Some(2))),
            (
                loc(2),
                call(
                    SEND,
                    vec![
                        arg(1, vec![Target::Call(loc(0))]),
                        None,
                        arg(2, vec![Target::Call(loc(1)), Target::Argument(0)]),
                    ],
                    None,
                ),
            ),
        ],
        vec![],
        1,
    )]);
    let flow = analyze(&p, AnalysisCtrl::new(), vec![]);
    let deps = deps_of(&flow, &[link(0, 2)]);
    assert_eq!(deps.input_deps.len(), 3);
    assert!(input_has(&flow, &[link(0, 2)], 0, &[link(0, 0)]));
    assert!(deps.input_deps[1].is_empty());
    assert!(input_has(&flow, &[link(0, 2)], 2, &[link(0, 1)]));
    let argument = [Link { function: 0, location: Location { block: ARG_BLOCK, statement_index: 1 } }];
    assert!(input_has(&flow, &[link(0, 2)], 2, &argument));
    assert_eq!(deps.input_deps[2].len(), 2);
}

#[test]
fn control_dependencies_are_kept_apart() {
    let mut send = call(SEND, vec![arg(2, vec![Target::Call(loc(1))])], None);
    send.ctrl_deps = vec![Target::Call(loc(0))];
    let p = program(vec![body(
        vec![
            (loc(0), call(GET, vec![], Some(1))),
            (loc(1), call(DP, vec![], Some(2))),
            (loc(2), send),
        ],
        vec![],
        0,
    )]);
    let flow = analyze(&p, AnalysisCtrl::new(), vec![]);
    let deps = deps_of(&flow, &[link(0, 2)]);
    assert_eq!(deps.ctrl_deps.len(), 1);
    assert_eq!(deps.ctrl_deps[0].links().as_slice(), &[link(0, 0)]);
    assert!(!input_has(&flow, &[link(0, 2)], 0, &[link(0, 0)]));
}

#[test]
fn inconsequential_call_is_removed() {
    let mut ctrl = AnalysisCtrl::new();
    ctrl.remove_inconsequential_calls = InconsequentialCallRemovalPolicy::Conservative;
    let flow = analyze(&chain_program(), ctrl, vec![GET, SEND]);
    assert!(!has_call(&flow, &[link(0, 1)]));
    assert!(input_has(&flow, &[link(0, 2)], 0, &[link(0, 0)]));
    // A marked call stays.
    let mut ctrl = AnalysisCtrl::new();
    ctrl.remove_inconsequential_calls = InconsequentialCallRemovalPolicy::Conservative;
    let flow = analyze(&chain_program(), ctrl, vec![GET, DP, SEND]);
    assert!(has_call(&flow, &[link(0, 1)]));
}

#[test]
fn return_dependencies_are_collected() {
    let p = program(vec![body(
        vec![(loc(0), call(GET, vec![], Some(1)))],
        vec![Target::Call(loc(0)), Target::Argument(1)],
        2,
    )]);
    let flow = analyze(&p, AnalysisCtrl::new(), vec![]);
    assert_eq!(flow.return_dependencies.len(), 2);
    assert!(flow.return_dependencies.iter().any(|l| l.links().as_slice() == [link(0, 0)]));
}

#[test]
fn malformed_summary_is_rejected() {
    let unknown_target = program(vec![body(
        vec![(loc(0), call(GET, vec![arg(1, vec![Target::Call(loc(9))])], None))],
        vec![],
        0,
    )]);
    assert!(!unknown_target.check());
    let twice = program(vec![body(
        vec![(loc(0), call(GET, vec![], None)), (loc(0), call(DP, vec![], None))],
        vec![],
        0,
    )]);
    assert!(!twice.check());
    let too_many = program(vec![body(
        vec![(loc(0), call(GET, (0..17).map(|_| None).collect(), None))],
        vec![],
        0,
    )]);
    assert!(!too_many.check());
    assert!(chain_program().check());
}

#[test]
fn all_locations_are_listed() {
    let flow = analyze(&chain_program(), AnalysisCtrl::new(), vec![]);
    let all = flow.all_locations_iter();
    let count = |chain: &[Link]| all.iter().filter(|l| l.links().as_slice() == chain).count();
    assert_eq!(all.len(), 5);
    assert_eq!(count(&[link(0, 0)]), 2);
    assert_eq!(count(&[link(0, 1)]), 2);
    assert_eq!(count(&[link(0, 2)]), 1);
    let mut expected: Vec<Vec<Link>> = Vec::new();
    for (call, deps) in flow.location_dependencies.iter() {
        expected.push(call.links().clone());
        expected.extend(deps.ctrl_deps.iter().map(|l| l.links().clone()));
        for input in deps.input_deps.iter() {
            expected.extend(input.iter().map(|l| l.links().clone()));
        }
    }
    let listed: Vec<Vec<Link>> = all.iter().map(|l| l.links().clone()).collect();
    assert_eq!(listed, expected);
}

#[test]
fn every_call_and_argument_is_a_node() {
    // `main(a, b)` calls `GET` without arguments and uses neither the result
    // nor its own arguments.
    let p = program(vec![body(vec![(loc(4), call(GET, vec![], None))], vec![], 2)]);
    let mut gli = dfpp::global_location::GlobalLocationInterner::new();
    let g = dfpp::inline::InlinedGraph::from_body(&mut gli, 0, &p.bodies[0]);
    let node = dfpp::graph::Node::Call(gli.globalize_location(loc(4), 0), GET);
    assert!(g.graph().contains_node(node));
    assert!(g.graph().contains_node(dfpp::graph::Node::Argument(0)));
    assert!(g.graph().contains_node(dfpp::graph::Node::Argument(1)));
    assert!(!g.graph().contains_node(dfpp::graph::Node::Argument(2)));
    assert!(g.graph().contains_node(dfpp::graph::Node::Return));
    assert_eq!(g.vertex_count(&gli), 4);
    assert_eq!(g.edge_count(&gli), 0);
    // the call is a key of the call-only flow, and depends on nothing
    let flow = analyze(&p, AnalysisCtrl::new(), vec![]);
    assert_eq!(flow.location_dependencies.len(), 1);
    assert!(has_call(&flow, &[link(0, 4)]));
    assert!(deps_of(&flow, &[link(0, 4)]).input_deps.is_empty());
    assert!(deps_of(&flow, &[link(0, 4)]).ctrl_deps.is_empty());
}

/// `main` hands the result of `GET` to `wrap` and the result of `wrap` to
/// `SEND`. `wrap(y)` calls itself with `y`, keeps the result in `_2` and
/// returns it; its summary says that what it returns comes from `y`.
fn recursive_wrapper() -> Program {
    let mut wrap = body(
        vec![(loc(7), call(1, vec![arg(1, vec![Target::Argument(0)])], Some(2)))],
        vec![Target::Argument(0)],
        1,
    );
    wrap.equations = vec![eq(0, 2)];
    program(vec![
        body(
            vec![
                (loc(0), call(GET, vec![], Some(1))),
                (loc(1), call(1, vec![arg(1, vec![Target::Call(loc(0))])], Some(2))),
                (loc(2), call(SEND, vec![arg(2, vec![Target::Call(loc(1))])], None)),
            ],
            vec![],
            0,
        ),
        wrap,
    ])
}

#[test]
fn recursive_call_may_write_what_it_reads() {
    // The flow from `GET` to `SEND` crosses `wrap`. The equations support it
    // only through the recursive call, which stays a call and so may hand
    // its argument on to its result.
    let mut ctrl = AnalysisCtrl::new();
    ctrl.pruning_strategy = PruningStrategy::NewEdges;
    let flow = analyze(&recursive_wrapper(), ctrl, vec![]);
    assert!(has_call(&flow, &[link(0, 1), link(1, 7)]));
    assert!(!has_call(&flow, &[link(0, 1)]));
    assert!(input_has(&flow, &[link(0, 2)], 0, &[link(0, 0)]));
    assert!(input_has(&flow, &[link(0, 1), link(1, 7)], 0, &[link(0, 0)]));
    // the same with the default strategy
    let flow = analyze(&recursive_wrapper(), AnalysisCtrl::new(), vec![]);
    assert!(input_has(&flow, &[link(0, 2)], 0, &[link(0, 0)]));
    // without the recursive call nothing ties what `wrap` returns to `y`
    let mut plain = recursive_wrapper();
    plain.bodies[1].calls.clear();
    let flow = analyze(&plain, AnalysisCtrl::new(), vec![]);
    assert!(has_call(&flow, &[link(0, 2)]));
    assert!(!depends(&flow, &[link(0, 2)], &[link(0, 0)]));
}

#[test]
fn second_request_gives_the_same_graph() {
    let p = recursive_wrapper();
    let oracle = SkipAnnotatedFunctionSelector { marked: vec![] };
    let mut inliner = Inliner::new(&p, &oracle, AnalysisCtrl::new());
    let (nodes, edges, equations, inlined, depth) = {
        let gli_len = inliner.gli().len();
        let _ = gli_len;
        let g = inliner.get_inlined_graph(0).unwrap();
        let mut nodes: Vec<_> = g.graph().node_list().iter().map(|n| n.to_key()).collect();
        nodes.sort();
        let mut edges: Vec<_> = g
            .graph()
            .all_edges()
            .iter()
            .map(|(a, b)| (a.to_key(), b.to_key(), g.graph().edge_weight(*a, *b).unwrap().to_key()))
            .collect();
        edges.sort();
        (nodes, edges, g.equations().len(), g.inlined_functions_count(), g.max_call_stack_depth())
    };
    let size = inliner.cache_size();
    assert_eq!(size, 2);
    let g = inliner.get_inlined_graph(0).unwrap();
    let mut again: Vec<_> = g.graph().node_list().iter().map(|n| n.to_key()).collect();
    again.sort();
    let mut edges_again: Vec<_> = g
        .graph()
        .all_edges()
        .iter()
        .map(|(a, b)| (a.to_key(), b.to_key(), g.graph().edge_weight(*a, *b).unwrap().to_key()))
        .collect();
    edges_again.sort();
    assert_eq!(again, nodes);
    assert_eq!(edges_again, edges);
    assert_eq!(g.equations().len(), equations);
    assert_eq!(g.inlined_functions_count(), inlined);
    assert_eq!(g.max_call_stack_depth(), depth);
    assert_eq!(inliner.cache_size(), size);
}
