use dfpp::algebra::{Equality, Term};
use dfpp::args::AnalysisCtrl;
use dfpp::global_location::{Link, Location};
use dfpp::inliner::SkipAnnotatedFunctionSelector;
use dfpp::memo::Inliner;
use dfpp::regal::{Argument, Body, Call, Program, Target};
use dfpp::serializers::SerializableCallOnlyFlow;

const SOURCE: u64 = 100;
const RECEIVER: u64 = 101;
const PRODUCE_USIZE: u64 = 102;
const PRODUCE_STRING: u64 = 103;
const READ_USIZE: u64 = 104;
const READ_STRING: u64 = 105;

fn at(block: u32) -> Location {
    Location { block, statement_index: 0 }
}

fn site(function: usize, block: u32) -> Link {
    Link { function, location: at(block) }
}

fn reads(local: u32, dependencies: Vec<Target>) -> Option<Argument> {
    Some(Argument { local, dependencies, writeable: false })
}

fn writes(local: u32, dependencies: Vec<Target>) -> Option<Argument> {
    Some(Argument { local, dependencies, writeable: true })
}

fn calls(function: u64, arguments: Vec<Option<Argument>>, return_to: Option<u32>) -> Call {
    Call { function, arguments, return_to, ctrl_deps: vec![], generator: None }
}

fn summary(calls: Vec<(Location, Call)>, return_deps: Vec<Target>, args: Vec<Vec<Target>>) -> Body {
    Body { calls, return_deps, return_arg_deps: args, equations: vec![] }
}

fn with_equations(mut body: Body, equations: Vec<Equality<u32>>) -> Body {
    body.equations = equations;
    body
}

/// `a = b`
fn same(a: u32, b: u32) -> Equality<u32> {
    Equality::new(Term::new_base(a), Term::new_base(b))
}

/// `a = &b`
fn borrows(a: u32, b: u32) -> Equality<u32> {
    Equality::new(Term::new_base(a), Term::new_base(b).add_ref_of())
}

/// `*a = b`
fn stores(a: u32, b: u32) -> Equality<u32> {
    Equality::new(Term::new_base(a).add_deref_of(), Term::new_base(b))
}

struct Graph {
    flow: SerializableCallOnlyFlow,
}

impl Graph {
    fn of(bodies: Vec<Body>) -> Graph {
        let program = Program { bodies, from_generator_fn: None, future_poll_fn: None };
        assert!(program.check());
        let oracle = SkipAnnotatedFunctionSelector { marked: vec![] };
        let mut inliner = Inliner::new(&program, &oracle, AnalysisCtrl::new());
        assert!(inliner.get_inlined_graph(0).is_some());
        let flow = inliner.to_call_only_flow(0, 1000).unwrap();
        Graph { flow: SerializableCallOnlyFlow::from(inliner.gli(), &flow) }
    }

    fn call_sites(&self, last: Link) -> Vec<Vec<Link>> {
        self.flow
            .location_dependencies
            .iter()
            .filter(|(l, _)| *l.links().last().unwrap() == last)
            .map(|(l, _)| l.links().clone())
            .collect()
    }

    fn inputs(&self, call: &[Link]) -> Vec<Vec<Vec<Link>>> {
        self.flow
            .location_dependencies
            .iter()
            .find(|(l, _)| l.links().as_slice() == call)
            .map(|(_, d)| {
                d.input_deps.iter().map(|s| s.iter().map(|l| l.links().clone()).collect()).collect()
            })
            .unwrap_or_default()
    }

    fn flows_to(&self, source: &[Link], call: &[Link], input: usize) -> bool {
        let mut seen: Vec<Vec<Link>> = vec![];
        let inputs = self.inputs(call);
        if input >= inputs.len() {
            return false;
        }
        let mut stack: Vec<Vec<Link>> = inputs[input].clone();
        while let Some(at) = stack.pop() {
            if at.as_slice() == source {
                return true;
            }
            if seen.contains(&at) {
                continue;
            }
            seen.push(at.clone());
            for deps in self.inputs(&at) {
                stack.extend(deps);
            }
        }
        false
    }
}

#[test]
fn without_return() {
    // fn without_return() { let x = source(); callee(x) }
    // fn callee(x) { receiver(x) }
    let graph = Graph::of(vec![
        summary(
            vec![
                (at(0), calls(SOURCE, vec![], Some(1))),
                (at(1), calls(1, vec![reads(1, vec![Target::Call(at(0))])], None)),
            ],
            vec![],
            vec![],
        ),
        summary(
            vec![(at(0), calls(RECEIVER, vec![reads(1, vec![Target::Argument(0)])], None))],
            vec![],
            vec![vec![]],
        ),
    ]);
    let src = graph.call_sites(site(0, 0)).pop().unwrap();
    let dest_sink = graph.call_sites(site(1, 0)).pop().unwrap();
    assert!(graph.inputs(&dest_sink).len() == 1);
    assert!(graph.flows_to(&src, &dest_sink, 0));
}

#[test]
fn with_return() {
    // fn with_return() { let x = source(); let y = callee(x); receiver(y) }
    // fn callee(x) -> _ { x }
    let graph = Graph::of(vec![
        summary(
            vec![
                (at(0), calls(SOURCE, vec![], Some(1))),
                (at(1), calls(1, vec![reads(1, vec![Target::Call(at(0))])], Some(2))),
                (at(2), calls(RECEIVER, vec![reads(2, vec![Target::Call(at(1))])], None)),
            ],
            vec![],
            vec![],
        ),
        with_equations(summary(vec![], vec![Target::Argument(0)], vec![vec![]]), vec![same(0, 1)]),
    ]);
    let src = graph.call_sites(site(0, 0)).pop().unwrap();
    let dest_sink = graph.call_sites(site(0, 2)).pop().unwrap();
    assert!(graph.inputs(&dest_sink).len() == 1);
    assert!(graph.flows_to(&src, &dest_sink, 0));
}

#[test]
fn on_mut_var() {
    // fn on_mut_var() { let mut x = 4; modify_it(&mut x); receiver(x) }
    // fn modify_it(x: &mut _) { *x = source() }
    //
    // In the caller `_1` is `x` and `_2` is `&mut x`; in the callee `_1` is
    // the argument and `_2` the result of `source()`.
    let graph = Graph::of(vec![
        with_equations(
            summary(
                vec![
                    (at(0), calls(1, vec![writes(2, vec![])], None)),
                    (at(1), calls(RECEIVER, vec![reads(1, vec![Target::Call(at(0))])], None)),
                ],
                vec![],
                vec![],
            ),
            vec![borrows(2, 1)],
        ),
        with_equations(
            summary(
                vec![(at(0), calls(SOURCE, vec![], Some(2)))],
                vec![],
                vec![vec![Target::Call(at(0))]],
            ),
            vec![stores(1, 2)],
        ),
    ]);
    let src = graph.call_sites(site(1, 0)).pop().unwrap();
    let dest_sink = graph.call_sites(site(0, 1)).pop().unwrap();
    assert!(graph.inputs(&dest_sink).len() == 1);
    assert!(graph.flows_to(&src, &dest_sink, 0));
}

#[test]
fn on_mut_var_no_modify() {
    // fn on_mut_var_no_modify() { let mut x = 4; dont_modify_it(&mut x); receiver(x) }
    // fn dont_modify_it(x: &mut _) { source(); }
    //
    // The callee leaves nothing in its argument.
    let graph = Graph::of(vec![
        with_equations(
            summary(
                vec![
                    (at(0), calls(1, vec![writes(2, vec![])], None)),
                    (at(1), calls(RECEIVER, vec![reads(1, vec![Target::Call(at(0))])], None)),
                ],
                vec![],
                vec![],
            ),
            vec![borrows(2, 1)],
        ),
        summary(vec![(at(0), calls(SOURCE, vec![], Some(2)))], vec![], vec![vec![]]),
    ]);
    assert_eq!(graph.call_sites(site(1, 0)), vec![vec![site(0, 0), site(1, 0)]]);
    assert_eq!(graph.call_sites(site(0, 1)), vec![vec![site(0, 1)]]);
    // nothing flows into the argument of the receiver
    assert_eq!(graph.inputs(&[site(0, 1)]), Vec::<Vec<Vec<Link>>>::new());
    let src = graph.call_sites(site(1, 0)).pop().unwrap();
    let dest_sink = graph.call_sites(site(0, 1)).pop().unwrap();
    assert!(!graph.flows_to(&src, &dest_sink, 0));
}

#[test]
fn field_sensitivity() {
    let graph = Graph::of(vec![summary(
        vec![
            (at(0), calls(PRODUCE_USIZE, vec![], Some(1))),
            (at(1), calls(PRODUCE_STRING, vec![], Some(2))),
            (at(2), calls(READ_STRING, vec![reads(2, vec![Target::Call(at(1))])], None)),
            (at(3), calls(READ_USIZE, vec![reads(1, vec![Target::Call(at(0))])], None)),
        ],
        vec![],
        vec![],
    )]);
    let produce_usize = graph.call_sites(site(0, 0)).pop().unwrap();
    let produce_string = graph.call_sites(site(0, 1)).pop().unwrap();
    let read_string = graph.call_sites(site(0, 2)).pop().unwrap();
    let read_usize = graph.call_sites(site(0, 3)).pop().unwrap();
    assert!(graph.flows_to(&produce_usize, &read_usize, 0));
    assert!(!graph.flows_to(&produce_usize, &read_string, 0));
    assert!(graph.flows_to(&produce_string, &read_string, 0));
}
