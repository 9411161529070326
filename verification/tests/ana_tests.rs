use dfpp::algebra::Base;
use dfpp::ana::{
    compute_granular_global_flows, AnalysisError, FlowFacts, GlobalFlowGraph, Procedure, Procedures,
};
use dfpp::args::AnalysisCtrl;
use dfpp::global_location::{GlobalLocationInterner, Link, Location};
use dfpp::inliner::SkipAnnotatedFunctionSelector;
use dfpp::mir::{
    AsFnAndArgsErr, BasicBlockData, Callee, MirBody, Place, ProjectionElem, ProjectionElemExt,
    Statement, StmtAt, StmtAtErr, TerminatorKind,
};
use dfpp::translate::{create_translation_matrix, translate_child_to_parent};
use dfpp::utils::RecursionBreakingCache;

fn loc(block: u32, statement_index: usize) -> Location {
    Location { block, statement_index }
}

fn local(l: u32) -> Place {
    Place::from_local(l)
}

fn place(l: u32, projection: Vec<ProjectionElem>) -> Place {
    Place { local: l, projection }
}

fn block(statements: usize, terminator: TerminatorKind) -> BasicBlockData {
    BasicBlockData {
        statements: (0..statements).map(|_| Statement::Other).collect(),
        terminator,
        terminator_reads: vec![],
    }
}

/// fn main() { _1 = ..; _2 = f(_1); return }
/// fn f(_1) { _0 = _1; return }
fn procedures(with_facts_for_call: bool) -> Procedures {
    let main_body = MirBody {
        basic_blocks: vec![
            block(
                1,
                TerminatorKind::Call {
                    func: Callee::Function(1),
                    args: vec![Some(local(1))],
                    destination: Some((local(2), 1)),
                },
            ),
            block(0, TerminatorKind::Return),
        ],
        arg_count: 0,
        returns_unit: true,
    };
    let mut states = vec![
        (loc(0, 0), vec![(local(1), vec![loc(0, 0)])]),
        (loc(1, 0), vec![(local(1), vec![loc(0, 0)]), (local(2), vec![loc(0, 1)])]),
    ];
    if with_facts_for_call {
        states.push((loc(0, 1), vec![(local(1), vec![loc(0, 0)]), (local(2), vec![loc(0, 1)])]));
    }
    let main = Procedure {
        body: main_body,
        facts: FlowFacts {
            states,
            aliases: vec![(local(2), vec![local(2)]), (local(1), vec![local(1)])],
            reachable_values: vec![],
        },
    };
    let f_body = MirBody {
        basic_blocks: vec![block(1, TerminatorKind::Return)],
        arg_count: 1,
        returns_unit: false,
    };
    let f = Procedure {
        body: f_body,
        facts: FlowFacts {
            states: vec![
                (loc(0, 0), vec![(local(0), vec![loc(0, 0)]), (local(1), vec![loc(1, 1)])]),
                (loc(0, 1), vec![(local(0), vec![loc(0, 0)]), (local(1), vec![loc(1, 1)])]),
            ],
            aliases: vec![],
            reachable_values: vec![],
        },
    };
    Procedures { procedures: vec![main, f] }
}

fn chain_of(gli: &GlobalLocationInterner, flow: &GlobalFlowGraph, i: usize) -> Vec<Link> {
    flow.location_states().as_vec()[i].0.links(gli)
}

fn find<'a>(
    gli: &GlobalLocationInterner,
    flow: &'a GlobalFlowGraph,
    chain: &[Link],
) -> &'a dfpp::dep_matrix::TranslatedDepMatrix {
    let states = flow.location_states().as_vec();
    &states.iter().find(|(l, _)| l.links(gli).as_slice() == chain).unwrap().1
}

#[test]
fn granular_flow_inlines_callee() {
    let procedures = procedures(true);
    assert!(procedures.check());
    let oracle = SkipAnnotatedFunctionSelector { marked: vec![] };
    let ctrl = AnalysisCtrl::new();
    let mut gli = GlobalLocationInterner::new();
    let mut memo: RecursionBreakingCache<GlobalFlowGraph> = RecursionBreakingCache::new(2);
    assert_eq!(
        compute_granular_global_flows(&procedures, &ctrl, &oracle, &mut gli, &mut memo, 0),
        Ok(true)
    );
    assert_eq!(memo.size(), 2);
    let callee = memo.get(1).unwrap();
    assert_eq!(callee.location_states().len(), 2);
    assert_eq!(callee.return_state().len(), 2);
    let flow = memo.get(0).unwrap();
    let site = Link { function: 0, location: loc(0, 1) };
    let chains: Vec<Vec<Link>> =
        (0..flow.location_states().len()).map(|i| chain_of(&gli, flow, i)).collect();
    assert_eq!(
        chains,
        vec![
            vec![Link { function: 0, location: loc(0, 0) }],
            vec![site, Link { function: 1, location: loc(0, 0) }],
            vec![site, Link { function: 1, location: loc(0, 1) }],
            vec![site, Link { function: 1, location: loc(1, 1) }],
            vec![site],
            vec![Link { function: 0, location: loc(1, 0) }],
        ]
    );
    // The statement of the caller keeps its matrix.
    let first = find(&gli, flow, &chains[0]);
    assert!(!first.is_translated());
    let (translated, deps) = first.resolve(&gli, &local(1));
    assert!(translated.is_none());
    assert_eq!(deps.len(), 1);
    assert_eq!(deps[0].links(&gli), chains[0]);
    let keys = first.keys(&gli);
    let values = first.values(&gli);
    assert_eq!(keys.len(), values.len());
    let at = keys.iter().position(|p| p.same(&local(1))).unwrap();
    assert_eq!(values[at].len(), 1);
    assert_eq!(values[at][0].links(&gli), chains[0]);
    // The states of the callee are nested under the call site.
    let nested = find(&gli, flow, &chains[1]);
    assert!(!nested.is_translated());
    let (_, deps) = nested.resolve(&gli, &local(0));
    assert_eq!(deps[0].links(&gli), chains[1]);
    // The formal argument translates places of the callee to the caller.
    let argument = find(&gli, flow, &chains[3]);
    assert!(argument.is_translated());
    let (translated, deps) = argument.resolve(&gli, &local(1));
    assert!(translated.unwrap().same(&local(1)));
    assert_eq!(deps[0].links(&gli), chains[0]);
    assert!(argument.resolve_place(&gli, &local(0)).unwrap().same(&local(2)));
    // The call site translates the destination to the return value.
    let boundary = find(&gli, flow, &chains[4]);
    assert!(boundary.is_translated());
    let (translated, deps) = boundary.resolve(&gli, &local(2));
    assert!(translated.unwrap().same(&local(0)));
    assert_eq!(deps.len(), 1);
    assert_eq!(deps[0].links(&gli), chains[1]);
    assert!(boundary.resolve_set(&gli, &local(7)).is_none());
    // The return state merges the matrix at the return.
    assert_eq!(flow.return_state().len(), 2);
    assert!(flow.return_state().get(&local(2)).is_some());
}

#[test]
fn marked_callee_keeps_the_call() {
    let procedures = procedures(true);
    let oracle = SkipAnnotatedFunctionSelector { marked: vec![1] };
    let ctrl = AnalysisCtrl::new();
    let mut gli = GlobalLocationInterner::new();
    let mut memo: RecursionBreakingCache<GlobalFlowGraph> = RecursionBreakingCache::new(2);
    assert_eq!(
        compute_granular_global_flows(&procedures, &ctrl, &oracle, &mut gli, &mut memo, 0),
        Ok(true)
    );
    assert_eq!(memo.size(), 1);
    let flow = memo.get(0).unwrap();
    assert_eq!(flow.location_states().len(), 3);
    assert!(flow.location_states().as_vec().iter().all(|(_, m)| !m.is_translated()));
}

#[test]
fn missing_facts_are_an_error() {
    let procedures = procedures(false);
    assert!(procedures.check());
    let oracle = SkipAnnotatedFunctionSelector { marked: vec![] };
    let ctrl = AnalysisCtrl::new();
    let mut gli = GlobalLocationInterner::new();
    let mut memo: RecursionBreakingCache<GlobalFlowGraph> = RecursionBreakingCache::new(2);
    let expected = Err(AnalysisError::MissingFacts { function: 0, location: loc(0, 1) });
    assert_eq!(
        compute_granular_global_flows(&procedures, &ctrl, &oracle, &mut gli, &mut memo, 0),
        expected
    );
    // The failure leaves the other procedure untouched and this one as if
    // nobody had asked.
    assert_eq!(memo.size(), 0);
    assert_eq!(
        compute_granular_global_flows(&procedures, &ctrl, &oracle, &mut gli, &mut memo, 0),
        expected
    );
    assert_eq!(
        compute_granular_global_flows(&procedures, &ctrl, &oracle, &mut gli, &mut memo, 1),
        Ok(true)
    );
    assert_eq!(memo.size(), 1);
}

#[test]
fn facts_with_a_place_twice_are_rejected() {
    let mut procedures = procedures(true);
    procedures.procedures[1].facts.states[0].1.push((local(0), vec![]));
    assert!(!procedures.check());
}

#[test]
fn places_translate_across_a_call() {
    let body = MirBody { basic_blocks: vec![], arg_count: 2, returns_unit: false };
    let unit = MirBody { basic_blocks: vec![], arg_count: 2, returns_unit: true };
    let args = vec![Some(place(5, vec![ProjectionElem::Field(0)])), None];
    let destination = Some((local(9), 1));
    let t = |child: &Place, mutated: bool, body: &MirBody| {
        translate_child_to_parent(&args, &destination, child, mutated, body)
    };
    assert!(t(&local(0), false, &body).unwrap().same(&local(9)));
    assert!(t(&local(0), false, &unit).is_none());
    assert!(translate_child_to_parent(&args, &None, &local(0), false, &body).is_none());
    let child = place(1, vec![ProjectionElem::Deref, ProjectionElem::Field(1)]);
    let parent = place(5, vec![
        ProjectionElem::Field(0),
        ProjectionElem::Deref,
        ProjectionElem::Field(1),
    ]);
    assert!(t(&child, false, &body).unwrap().same(&parent));
    assert!(t(&child, true, &body).unwrap().same(&parent));
    assert!(t(&local(1), false, &body).unwrap().same(&place(5, vec![ProjectionElem::Field(0)])));
    assert!(t(&local(1), true, &body).is_none());
    assert!(t(&local(2), false, &body).is_none());
    assert!(t(&local(3), false, &body).is_none());
    let aliases = vec![(parent.duplicate(), vec![parent.duplicate(), local(6)])];
    let children = vec![child.duplicate(), local(1)];
    let m = create_translation_matrix(&args, &destination, &body, &children, &aliases);
    assert_eq!(m.len(), 2);
    assert!(m.get(&local(6)).unwrap().same(&child));
    assert!(m.get(&parent).unwrap().same(&child));
    assert!(m.get(&local(5)).is_none());
}

#[test]
fn places_have_provenance() {
    let p = place(1, vec![
        ProjectionElem::Deref,
        ProjectionElem::Field(2),
        ProjectionElem::Deref,
        ProjectionElem::Index(4),
    ]);
    let provenance = p.provenance();
    assert_eq!(provenance.len(), 3);
    assert!(provenance[0].same(&p));
    assert!(provenance[1].same(&place(1, vec![ProjectionElem::Deref, ProjectionElem::Field(2)])));
    assert!(provenance[2].same(&local(1)));
    assert_eq!(local(3).provenance().len(), 1);
    assert!(p.is_indirect());
    assert!(!local(1).is_indirect());
    assert!(local(1).is_arg(1));
    assert!(!local(0).is_arg(1));
    assert!(!local(2).is_arg(1));
    assert!(ProjectionElem::Field(0).may_be_indirect());
    assert!(ProjectionElem::Index(0).may_be_indirect());
    assert!(!ProjectionElem::Deref.may_be_indirect());
    assert!(!ProjectionElem::Downcast(1).may_be_indirect());
    assert!(p.truncated(1).same(&place(1, vec![ProjectionElem::Deref])));
}

#[test]
fn terminators_as_calls() {
    let call = TerminatorKind::Call {
        func: Callee::Closure(4),
        args: vec![None, Some(local(2))],
        destination: None,
    };
    let (function, args, destination) = call.as_fn_and_args().unwrap();
    assert_eq!(function, 4);
    assert_eq!(args.len(), 2);
    assert!(args[0].is_none());
    assert!(args[1].as_ref().unwrap().same(&local(2)));
    assert!(destination.is_none());
    let err = |func| {
        TerminatorKind::Call { func, args: vec![], destination: None }.as_fn_and_args().err()
    };
    assert_eq!(err(Callee::Computed), Some(AsFnAndArgsErr::NotAConstant));
    assert_eq!(err(Callee::OtherConstant), Some(AsFnAndArgsErr::NotFunctionType));
    assert_eq!(TerminatorKind::Return.as_fn_and_args().err(), Some(AsFnAndArgsErr::NotAFunctionCall));
    assert_eq!(TerminatorKind::Other.as_fn_and_args().err(), Some(AsFnAndArgsErr::NotAFunctionCall));
}

#[test]
fn statements_of_a_body() {
    let body = MirBody {
        basic_blocks: vec![block(2, TerminatorKind::Other), block(0, TerminatorKind::Return)],
        arg_count: 0,
        returns_unit: true,
    };
    assert_eq!(body.maybe_stmt_at(loc(0, 1)), Ok(StmtAt::Statement(1)));
    assert_eq!(body.maybe_stmt_at(loc(0, 2)), Ok(StmtAt::Terminator));
    assert_eq!(body.maybe_stmt_at(loc(0, 3)), Err(StmtAtErr::StatementIndexOutOfBounds(3)));
    assert_eq!(body.maybe_stmt_at(loc(2, 0)), Err(StmtAtErr::BasicBlockOutOfBound(2)));
    assert!(body.is_real(loc(1, 0)));
    assert!(!body.is_real(loc(2, 1)));
    assert_eq!(dfpp::ana::locations_of(&body).len(), 4);
}
