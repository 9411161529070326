use dfpp::ana::{
    compute_granular_global_flows, AnalysisError, FlowFacts, GlobalFlowGraph, Procedure, Procedures,
};
use dfpp::args::AnalysisCtrl;
use dfpp::call_only::{
    compute_call_only_flow, deep_dependencies_of, deps_for_places, read_places_with_provenance, Flow,
    Keep,
};
use dfpp::flows::CallOnlyFlow;
use dfpp::global_location::{GlobalLocationInterner, Link, Location};
use dfpp::inliner::SkipAnnotatedFunctionSelector;
use dfpp::mir::{
    handle_aggregate_assign, AggregateErr, BasicBlockData, Callee, MirBody, Place, ProjectionElem,
    Rvalue, Statement, StmtAt, TerminatorKind,
};
use dfpp::utils::RecursionBreakingCache;

const GET: u64 = 100;
const SEND: u64 = 102;

fn loc(block: u32, statement_index: usize) -> Location {
    Location { block, statement_index }
}

fn local(l: u32) -> Place {
    Place::from_local(l)
}

fn call(function: u64, args: Vec<u32>, destination: u32, next: u32) -> BasicBlockData {
    BasicBlockData {
        statements: vec![],
        terminator: TerminatorKind::Call {
            func: Callee::Function(function),
            args: args.iter().map(|a| Some(local(*a))).collect(),
            destination: Some((local(destination), next)),
        },
        terminator_reads: args.iter().map(|a| local(*a)).collect(),
    }
}

fn row(place: u32, writers: Vec<Location>) -> (Place, Vec<Location>) {
    (local(place), writers)
}

fn link(function: usize, location: Location) -> Link {
    Link { function, location }
}

fn granular(procedures: &Procedures, gli: &mut GlobalLocationInterner) -> RecursionBreakingCache<GlobalFlowGraph> {
    assert!(procedures.check());
    let oracle = SkipAnnotatedFunctionSelector { marked: vec![] };
    let mut memo: RecursionBreakingCache<GlobalFlowGraph> =
        RecursionBreakingCache::new(procedures.procedures.len());
    assert_eq!(
        compute_granular_global_flows(procedures, &AnalysisCtrl::new(), &oracle, gli, &mut memo, 0),
        Ok(true)
    );
    memo
}

fn calls(gli: &GlobalLocationInterner, flow: &CallOnlyFlow) -> Vec<Vec<Link>> {
    flow.location_dependencies.iter().map(|(l, _)| l.links(gli)).collect()
}

fn inputs(gli: &GlobalLocationInterner, flow: &CallOnlyFlow, call: &[Link]) -> Vec<Vec<Vec<Link>>> {
    let deps = &flow.location_dependencies.iter().find(|(l, _)| l.links(gli).as_slice() == call).unwrap().1;
    assert!(deps.ctrl_deps.is_empty());
    deps.input_deps.iter().map(|d| d.iter().map(|l| l.links(gli)).collect()).collect()
}

/// fn main() { _1 = get(); _2 = dp(_1); _3 = send(_2); return }
fn chain() -> Procedures {
    let body = MirBody {
        basic_blocks: vec![
            call(GET, vec![], 1, 1),
            call(101, vec![1], 2, 2),
            call(SEND, vec![2], 3, 3),
            BasicBlockData { statements: vec![], terminator: TerminatorKind::Return, terminator_reads: vec![] },
        ],
        arg_count: 0,
        returns_unit: true,
    };
    let facts = FlowFacts {
        states: vec![
            (loc(0, 0), vec![]),
            (loc(1, 0), vec![row(1, vec![loc(0, 0)])]),
            (loc(2, 0), vec![row(1, vec![loc(0, 0)]), row(2, vec![loc(1, 0)])]),
            (loc(3, 0), vec![row(1, vec![loc(0, 0)]), row(2, vec![loc(1, 0)]), row(3, vec![loc(2, 0)])]),
        ],
        aliases: vec![],
        reachable_values: vec![],
    };
    Procedures { procedures: vec![Procedure { body, facts }] }
}

#[test]
fn call_only_flow_of_a_chain() {
    let procedures = chain();
    let mut gli = GlobalLocationInterner::new();
    let memo = granular(&procedures, &mut gli);
    let flow = compute_call_only_flow(&procedures, &gli, memo.get(0).unwrap(), false);
    let get = vec![link(0, loc(0, 0))];
    let dp = vec![link(0, loc(1, 0))];
    let send = vec![link(0, loc(2, 0))];
    assert_eq!(calls(&gli, &flow), vec![get.clone(), dp.clone(), send.clone()]);
    assert_eq!(inputs(&gli, &flow, &get), Vec::<Vec<Vec<Link>>>::new());
    assert_eq!(inputs(&gli, &flow, &dp), vec![vec![get.clone()]]);
    assert_eq!(inputs(&gli, &flow, &send), vec![vec![dp.clone()]]);
    assert!(flow.return_dependencies.is_empty());
}

/// fn main() { _1 = get(); _4 = _1; _5 = 3; _3 = send(_4, const, _5); return }
fn through_statements() -> Procedures {
    let body = MirBody {
        basic_blocks: vec![
            call(GET, vec![], 1, 1),
            BasicBlockData {
                statements: vec![
                    Statement::Assign(local(4), Rvalue::Other(vec![local(1)])),
                    Statement::Assign(local(5), Rvalue::Other(vec![])),
                ],
                terminator: TerminatorKind::Call {
                    func: Callee::Function(SEND),
                    args: vec![Some(local(4)), None, Some(local(5))],
                    destination: Some((local(3), 2)),
                },
                terminator_reads: vec![local(4), local(5)],
            },
            BasicBlockData { statements: vec![], terminator: TerminatorKind::Other, terminator_reads: vec![] },
        ],
        arg_count: 0,
        returns_unit: true,
    };
    let facts = FlowFacts {
        states: vec![
            (loc(0, 0), vec![]),
            (loc(1, 0), vec![row(1, vec![loc(0, 0)]), row(4, vec![loc(1, 0)])]),
            (loc(1, 1), vec![row(1, vec![loc(0, 0)]), row(4, vec![loc(1, 0)]), row(5, vec![loc(1, 1)])]),
            (
                loc(1, 2),
                vec![row(1, vec![loc(0, 0)]), row(4, vec![loc(1, 0)]), row(5, vec![loc(1, 1)])],
            ),
            (loc(2, 0), vec![row(3, vec![loc(1, 2)])]),
        ],
        aliases: vec![],
        reachable_values: vec![],
    };
    Procedures { procedures: vec![Procedure { body, facts }] }
}

#[test]
fn statements_are_passed_over() {
    let procedures = through_statements();
    let mut gli = GlobalLocationInterner::new();
    let memo = granular(&procedures, &mut gli);
    let flow = compute_call_only_flow(&procedures, &gli, memo.get(0).unwrap(), false);
    let get = vec![link(0, loc(0, 0))];
    let send = vec![link(0, loc(1, 2))];
    assert_eq!(calls(&gli, &flow), vec![get.clone(), send.clone()]);
    assert_eq!(inputs(&gli, &flow, &send), vec![vec![get.clone()], vec![], vec![]]);
}

/// fn main() { _1 = get(); _2 = f(_1); _3 = send(_2); return }
/// fn f(_1) { _0 = _1; return }
fn with_callee() -> Procedures {
    let main_body = MirBody {
        basic_blocks: vec![
            call(GET, vec![], 1, 1),
            call(1, vec![1], 2, 2),
            call(SEND, vec![2], 3, 3),
            BasicBlockData { statements: vec![], terminator: TerminatorKind::Return, terminator_reads: vec![] },
        ],
        arg_count: 0,
        returns_unit: true,
    };
    let main = Procedure {
        body: main_body,
        facts: FlowFacts {
            states: vec![
                (loc(0, 0), vec![]),
                (loc(1, 0), vec![row(1, vec![loc(0, 0)])]),
                (loc(2, 0), vec![row(1, vec![loc(0, 0)]), row(2, vec![loc(1, 0)])]),
                (
                    loc(3, 0),
                    vec![row(1, vec![loc(0, 0)]), row(2, vec![loc(1, 0)]), row(3, vec![loc(2, 0)])],
                ),
            ],
            aliases: vec![(local(2), vec![local(2)]), (local(1), vec![local(1)])],
            reachable_values: vec![],
        },
    };
    let f_body = MirBody {
        basic_blocks: vec![BasicBlockData {
            statements: vec![Statement::Assign(local(0), Rvalue::Other(vec![local(1)]))],
            terminator: TerminatorKind::Return,
            terminator_reads: vec![],
        }],
        arg_count: 1,
        returns_unit: false,
    };
    let f = Procedure {
        body: f_body,
        facts: FlowFacts {
            states: vec![
                (loc(0, 0), vec![row(0, vec![loc(0, 0)]), row(1, vec![loc(1, 1)])]),
                (loc(0, 1), vec![row(0, vec![loc(0, 0)]), row(1, vec![loc(1, 1)])]),
            ],
            aliases: vec![],
            reachable_values: vec![],
        },
    };
    Procedures { procedures: vec![main, f] }
}

#[test]
fn search_crosses_the_boundary_of_an_inlined_callee() {
    let procedures = with_callee();
    let mut gli = GlobalLocationInterner::new();
    let memo = granular(&procedures, &mut gli);
    let g = memo.get(0).unwrap();
    let flow = compute_call_only_flow(&procedures, &gli, g, false);
    let get = vec![link(0, loc(0, 0))];
    let send = vec![link(0, loc(2, 0))];
    assert_eq!(calls(&gli, &flow), vec![get.clone(), send.clone()]);
    assert_eq!(inputs(&gli, &flow, &send), vec![vec![get.clone()]]);
    // from inside the callee the search comes to the same call
    let site = link(0, loc(1, 0));
    let inner = g
        .location_states()
        .as_vec()
        .iter()
        .map(|e| e.0)
        .find(|l| l.links(&gli) == vec![site, link(1, loc(0, 0))])
        .unwrap();
    let deps = deep_dependencies_of(&procedures, &gli, &vec![], inner, g, &local(1), false);
    assert_eq!(deps.iter().map(|l| l.links(&gli)).collect::<Vec<_>>(), vec![get.clone()]);
    let none = deep_dependencies_of(&procedures, &gli, &vec![], inner, g, &local(9), false);
    assert!(none.is_empty());
}

#[test]
fn reachable_values_widen_the_search() {
    let procedures = chain();
    let mut gli = GlobalLocationInterner::new();
    let memo = granular(&procedures, &mut gli);
    let g = memo.get(0).unwrap();
    let send = g.location_states().as_vec()[2].0;
    assert_eq!(send.links(&gli), vec![link(0, loc(2, 0))]);
    let reachable = vec![(local(2), vec![local(2), local(1)])];
    let narrow = deep_dependencies_of(&procedures, &gli, &reachable, send, g, &local(2), false);
    assert_eq!(narrow.iter().map(|l| l.links(&gli)).collect::<Vec<_>>(), vec![vec![link(0, loc(1, 0))]]);
    let mut wide: Vec<Vec<Link>> = deep_dependencies_of(&procedures, &gli, &reachable, send, g, &local(2), true)
        .iter()
        .map(|l| l.links(&gli))
        .collect();
    wide.sort_by_key(|c| c[0].location.block);
    assert_eq!(wide, vec![vec![link(0, loc(0, 0))], vec![link(0, loc(1, 0))]]);
    let unknown = deep_dependencies_of(&procedures, &gli, &reachable, send, g, &local(1), true);
    assert!(unknown.is_empty());
}

#[test]
fn locations_are_classified() {
    let procedures = through_statements();
    assert!(matches!(Keep::from_location(&procedures, 0, loc(0, 0), true), Keep::Keep(args, Some(_)) if args.is_empty()));
    assert!(matches!(
        Keep::from_location(&procedures, 0, loc(1, 0), true),
        Keep::Reject(Some(StmtAt::Statement(0)))
    ));
    assert!(matches!(
        Keep::from_location(&procedures, 0, loc(2, 0), true),
        Keep::Reject(Some(StmtAt::Terminator))
    ));
    assert!(matches!(Keep::from_location(&procedures, 0, loc(3, 2), true), Keep::Argument(2)));
    assert!(matches!(Keep::from_location(&procedures, 0, loc(3, 2), false), Keep::Reject(None)));
    assert!(matches!(Keep::from_location(&procedures, 5, loc(0, 0), true), Keep::Reject(None)));
    let kept = Keep::from_location(&procedures, 0, loc(1, 2), false).into_keep().unwrap();
    assert_eq!(kept.0.len(), 3);
    assert!(kept.0[1].is_none());
    assert!(Keep::from_location(&procedures, 0, loc(1, 0), false).into_keep().is_none());
    let mut gli = GlobalLocationInterner::new();
    let at = gli.globalize_location(loc(3, 1), 0);
    assert!(matches!(Keep::from_global_location(&procedures, &gli, at), Keep::Argument(1)));
    let body = &procedures.procedures[0].body;
    assert_eq!(body.places_read(loc(1, 0), StmtAt::Statement(0), None).len(), 1);
    assert_eq!(body.places_read(loc(1, 2), StmtAt::Terminator, None).len(), 2);
    // of a call, the arguments that are places; or whatever it mentions
    assert_eq!(body.extract_places(loc(1, 2), true).len(), 2);
    assert_eq!(body.extract_places(loc(1, 2), false).len(), 2);
    assert_eq!(body.extract_places(loc(0, 0), true).len(), 0);
}

#[test]
fn pointers_are_read_with_their_places() {
    let deep = Place {
        local: 3,
        projection: vec![ProjectionElem::Deref, ProjectionElem::Field(1), ProjectionElem::Deref],
    };
    let all = read_places_with_provenance(&vec![local(1), deep]);
    let shapes: Vec<(u32, usize)> = all.iter().map(|p| (p.local, p.projection.len())).collect();
    assert_eq!(shapes, vec![(1, 0), (3, 3), (3, 2), (3, 0)]);
}

#[test]
fn writers_are_looked_up_in_the_state() {
    let procedures = chain();
    let mut gli = GlobalLocationInterner::new();
    let memo = granular(&procedures, &mut gli);
    let g = memo.get(0).unwrap();
    let send = g.location_states().as_vec()[2].0;
    let found = deps_for_places(&gli, g, send, &vec![local(2), local(1), local(7)]);
    let pairs: Vec<(u32, Vec<Link>)> = found.iter().map(|(p, l)| (p.local, l.links(&gli))).collect();
    assert_eq!(pairs, vec![(2, vec![link(0, loc(1, 0))]), (1, vec![link(0, loc(0, 0))])]);
}

#[test]
fn analysis_of_a_procedure() {
    let procedures = with_callee();
    assert!(procedures.check());
    let oracle = SkipAnnotatedFunctionSelector { marked: vec![] };
    let mut gli = GlobalLocationInterner::new();
    let flow = Flow::compute(&AnalysisCtrl::new(), &procedures, 0, &mut gli, &oracle).unwrap();
    assert_eq!(flow.root_function, 0);
    assert_eq!(flow.function_flows.size(), 2);
    let get = vec![link(0, loc(0, 0))];
    let send = vec![link(0, loc(2, 0))];
    assert_eq!(calls(&gli, &flow.reduced_flow), vec![get.clone(), send.clone()]);
    assert_eq!(inputs(&gli, &flow.reduced_flow, &send), vec![vec![get.clone()]]);
    // a callee that is not inlined stays a call
    let marked = SkipAnnotatedFunctionSelector { marked: vec![1] };
    let mut gli = GlobalLocationInterner::new();
    let flow = Flow::compute(&AnalysisCtrl::new(), &procedures, 0, &mut gli, &marked).unwrap();
    assert_eq!(flow.function_flows.size(), 1);
    let f = vec![link(0, loc(1, 0))];
    assert_eq!(calls(&gli, &flow.reduced_flow), vec![get.clone(), f.clone(), send.clone()]);
    assert_eq!(inputs(&gli, &flow.reduced_flow, &f), vec![vec![get.clone()]]);
    assert_eq!(inputs(&gli, &flow.reduced_flow, &send), vec![vec![f.clone()]]);
}

#[test]
fn analysis_without_facts_fails() {
    let mut procedures = chain();
    procedures.procedures[0].facts.states.remove(2);
    assert!(procedures.check());
    let oracle = SkipAnnotatedFunctionSelector { marked: vec![] };
    let mut gli = GlobalLocationInterner::new();
    let r = Flow::compute(&AnalysisCtrl::new(), &procedures, 0, &mut gli, &oracle);
    assert_eq!(r.err(), Some(AnalysisError::MissingFacts { function: 0, location: loc(2, 0) }));
}

fn shape(places: &Vec<Place>) -> Vec<(u32, Vec<ProjectionElem>)> {
    places.iter().map(|p| (p.local, p.projection.clone())).collect()
}

#[test]
fn assignments_read_what_they_write_through() {
    let field = ProjectionElem::Field(0);
    let deref = ProjectionElem::Deref;
    // (*((*_1).0)) = _2 leaves the rest of *_1 as it was
    let dest = Place { local: 1, projection: vec![deref, field, deref] };
    let body = MirBody {
        basic_blocks: vec![BasicBlockData {
            statements: vec![
                Statement::Assign(dest, Rvalue::Other(vec![local(2)])),
                Statement::Assign(local(3), Rvalue::Other(vec![local(2), local(4)])),
                Statement::Assign(
                    Place { local: 5, projection: vec![deref] },
                    Rvalue::Aggregate(vec![Some(local(6)), None, Some(local(7))]),
                ),
                Statement::Other,
            ],
            terminator: TerminatorKind::Return,
            terminator_reads: vec![local(0)],
        }],
        arg_count: 0,
        returns_unit: false,
    };
    assert_eq!(
        shape(&body.places_read(loc(0, 0), StmtAt::Statement(0), None)),
        vec![(1, vec![]), (1, vec![deref]), (2, vec![])]
    );
    assert_eq!(
        shape(&body.places_read(loc(0, 1), StmtAt::Statement(1), None)),
        vec![(2, vec![]), (4, vec![])]
    );
    // without knowing what is read later every part of the aggregate is read
    assert_eq!(
        shape(&body.places_read(loc(0, 2), StmtAt::Statement(2), None)),
        vec![(6, vec![]), (7, vec![])]
    );
    // (*_5).2.0 is read later: only the part for the field 2 is read
    let later = Place { local: 5, projection: vec![deref, ProjectionElem::Field(2), field] };
    assert_eq!(
        shape(&body.places_read(loc(0, 2), StmtAt::Statement(2), Some(&later))),
        vec![(7, vec![field])]
    );
    assert_eq!(shape(&body.places_read(loc(0, 3), StmtAt::Statement(3), None)), vec![]);
    // what is assigned is mentioned too
    assert_eq!(
        shape(&body.extract_places(loc(0, 1), false)),
        vec![(3, vec![]), (2, vec![]), (4, vec![])]
    );
    assert_eq!(
        shape(&body.extract_places(loc(0, 2), true)),
        vec![(5, vec![deref]), (6, vec![]), (7, vec![])]
    );
    assert_eq!(shape(&body.extract_places(loc(0, 3), false)), vec![]);
    assert_eq!(shape(&body.extract_places(loc(0, 4), true)), vec![(0, vec![])]);
    assert_eq!(shape(&body.places_read(loc(0, 4), StmtAt::Terminator, None)), vec![(0, vec![])]);
}

#[test]
fn parts_of_aggregates_are_selected() {
    let ops = vec![Some(local(6)), None, Some(Place { local: 7, projection: vec![ProjectionElem::Deref] })];
    let dest = local(5);
    let field = |f: u32, more: Vec<ProjectionElem>| {
        let mut projection = vec![ProjectionElem::Field(f)];
        projection.extend(more);
        Place { local: 5, projection }
    };
    assert_eq!(handle_aggregate_assign(&dest, &ops, None).err(), Some(AggregateErr::NoReadAfter));
    assert_eq!(
        handle_aggregate_assign(&dest, &ops, Some(&local(5))).err(),
        Some(AggregateErr::ProjectionTooShort)
    );
    assert_eq!(
        handle_aggregate_assign(&dest, &ops, Some(&Place { local: 5, projection: vec![ProjectionElem::Deref] }))
            .err(),
        Some(AggregateErr::NotAFieldProjection)
    );
    assert_eq!(
        handle_aggregate_assign(&dest, &ops, Some(&field(1, vec![]))).err(),
        Some(AggregateErr::Constant)
    );
    let whole = handle_aggregate_assign(&dest, &ops, Some(&field(0, vec![]))).unwrap();
    assert_eq!((whole.local, whole.projection), (6, vec![]));
    let inner = handle_aggregate_assign(&dest, &ops, Some(&field(2, vec![ProjectionElem::Field(9)]))).unwrap();
    assert_eq!((inner.local, inner.projection), (7, vec![ProjectionElem::Deref, ProjectionElem::Field(9)]));
}
