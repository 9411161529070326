use dfpp::algebra::Operator::{ContainsAt, DerefOf, MemberOf, RefOf, Unknown};
use dfpp::algebra::{contains_base, Base, Equality, Term};
use dfpp::args::{AnalysisCtrl, InconsequentialCallRemovalPolicy};
use dfpp::assoc::ListMap;
use dfpp::dep_matrix::{GlobalDepMatrix, TranslatedDepMatrix, Translator};
use dfpp::edge::{Edge, EdgeType, TinyBitSet};
use dfpp::global_location::{GliAt, GlobalLocation, GlobalLocationInterner, Link, Location};
use dfpp::graph::{FlowGraph, Node};
use dfpp::inliner::SkipAnnotatedFunctionSelector;
use dfpp::memo::Inliner;
use dfpp::mir::Place;
use dfpp::regal::{arg_num_to_local, Argument, Body, Call, Program, Target};
use dfpp::serializers::RawGlobalLocation;

fn loc(block: u32, statement_index: usize) -> Location {
    Location { block, statement_index }
}

#[test]
fn operators_cancel_and_exclude() {
    assert_eq!(RefOf.flip(), DerefOf);
    assert_eq!(MemberOf(2).flip(), ContainsAt(2));
    assert_eq!(Unknown.flip(), Unknown);
    assert!(RefOf.cancels(DerefOf));
    assert!(DerefOf.cancels(RefOf));
    assert!(ContainsAt(1).cancels(MemberOf(1)));
    assert!(!ContainsAt(1).cancels(MemberOf(2)));
    assert!(!RefOf.cancels(RefOf));
    assert!(!Unknown.cancels(Unknown));
    assert!(ContainsAt(1).excludes(MemberOf(2)));
    assert!(!ContainsAt(1).excludes(MemberOf(1)));
    assert!(!MemberOf(1).excludes(ContainsAt(2)));
}

#[test]
fn terms_are_built_and_rebased() {
    let t = Term::new_base(4u32).add_member_of(1).add_ref_of().add_operator(Unknown);
    assert_eq!(*t.base(), 4);
    assert_eq!(*t.terms(), vec![MemberOf(1), RefOf, Unknown]);
    let moved = t.map_base(9u32);
    assert_eq!(*moved.base(), 9);
    assert_eq!(*moved.terms(), vec![MemberOf(1), RefOf, Unknown]);
    let e = Equality::new(Term::new_base(1u32).add_deref_of(), Term::new_base(2u32).add_contains_at(0));
    assert_eq!(*e.lhs().base(), 1);
    assert_eq!(*e.lhs().terms(), vec![DerefOf]);
    assert_eq!(*e.rhs().terms(), vec![ContainsAt(0)]);
    assert!(e.mentions(&1));
    assert!(e.mentions(&2));
    assert!(!e.mentions(&3));
    let other = e.map_bases(7u32, 8u32);
    assert_eq!(*other.lhs().base(), 7);
    assert_eq!(*other.rhs().base(), 8);
    assert_eq!(*other.lhs().terms(), vec![DerefOf]);
    assert_eq!(*other.rhs().terms(), vec![ContainsAt(0)]);
    assert!(contains_base(&vec![3u32, 5], &5));
    assert!(!contains_base(&vec![3u32, 5], &4));
}

#[test]
fn equalities_rewrite_terms() {
    // 1 == &2, so *1 is 2
    let e = Equality::new(Term::new_base(1u32), Term::new_base(2u32).add_ref_of());
    let r = e.apply(&Term::new_base(1u32).add_deref_of()).unwrap();
    assert_eq!(*r.base(), 2);
    assert_eq!(*r.terms(), vec![]);
    // and 2 is *1
    let back = e.apply(&Term::new_base(2u32)).unwrap();
    assert_eq!(*back.base(), 1);
    assert_eq!(*back.terms(), vec![DerefOf]);
    // 1 == a value with 2 in field 0: field 0 of 1 is 2, field 1 of 1 is not
    let f = Equality::new(Term::new_base(1u32), Term::new_base(2u32).add_contains_at(0));
    let same_field = f.apply(&Term::new_base(1u32).add_member_of(0)).unwrap();
    assert_eq!(*same_field.base(), 2);
    assert_eq!(*same_field.terms(), vec![]);
    assert!(f.apply(&Term::new_base(1u32).add_member_of(1)).is_none());
    let unknown = f.apply(&Term::new_base(1u32).add_unknown()).unwrap();
    assert_eq!(*unknown.terms(), vec![Unknown]);
}

#[test]
fn policies_answer() {
    assert!(!InconsequentialCallRemovalPolicy::Disabled.is_enabled());
    assert!(InconsequentialCallRemovalPolicy::Conservative.is_enabled());
    assert!(InconsequentialCallRemovalPolicy::Aggressive.is_enabled());
    assert!(!InconsequentialCallRemovalPolicy::Conservative.remove_ctrl_flow_source());
    assert!(InconsequentialCallRemovalPolicy::Aggressive.remove_ctrl_flow_source());
    let ctrl = AnalysisCtrl::new();
    assert!(ctrl.drop_poll());
    assert_eq!(arg_num_to_local(0), 1);
    assert_eq!(arg_num_to_local(4), 5);
    assert_eq!(arg_num_to_local(u32::MAX), u32::MAX);
}

#[test]
fn bit_sets_hold_positions() {
    let mut s = TinyBitSet::new_empty();
    assert!(s.is_empty());
    assert_eq!(s.to_bits(), 0);
    s.set(0);
    s.set(15);
    s.set(3);
    assert_eq!(s.to_bits(), 0b1000_0000_0000_1001);
    assert_eq!(s.count(), 3);
    assert!(s.is_set(3));
    assert!(!s.is_set(4));
    assert!(!s.is_set(16));
    assert!(!s.is_set(40));
    assert_eq!(s.into_iter_set_in_domain(), vec![0, 3, 15]);
    s.clear(3);
    s.clear(7);
    s.clear(99);
    assert_eq!(s.into_iter_set_in_domain(), vec![0, 15]);
    let mut other = TinyBitSet::from_bits(0b110);
    other.union(s);
    assert_eq!(other.into_iter_set_in_domain(), vec![0, 1, 2, 15]);
    assert_eq!(TinyBitSet::from_bits(0b110), TinyBitSet::from_bits(6));
}

#[test]
fn list_maps_keep_one_entry_per_key() {
    let mut m: ListMap<u32, &str> = ListMap::new();
    assert_eq!(m.len(), 0);
    assert!(!m.contains_key(&1));
    assert_eq!(m.insert(1, "a"), None);
    m.push_new(2, "b");
    assert_eq!(m.insert(1, "c"), Some("a"));
    assert_eq!(m.len(), 2);
    assert!(m.contains_key(&1));
    assert!(m.contains_key(&2));
    assert!(!m.contains_key(&3));
    assert_eq!(m.get(&1), Some(&"c"));
    assert_eq!(m.get(&2), Some(&"b"));
    assert_eq!(m.get(&3), None);
    m.set(2, "d");
    m.set(5, "e");
    assert_eq!(m.get(&2), Some(&"d"));
    assert_eq!(m.get(&5), Some(&"e"));
    assert_eq!(m.position(&5), Some(2));
    assert_eq!(m.len(), 3);
}

#[test]
fn interner_knows_its_handles() {
    let mut gli = GlobalLocationInterner::new();
    assert!(!gli.is_valid(GlobalLocation { id: 0 }));
    let inner = gli.globalize_location(loc(2, 1), 7);
    let at = GliAt::at(loc(0, 3), 1);
    let outer = at.relativize(&mut gli, inner);
    let alone = at.as_global_location(&mut gli);
    assert!(gli.is_valid(inner));
    assert!(gli.is_valid(outer));
    assert!(!gli.is_valid(GlobalLocation { id: gli.len() }));
    assert_eq!(alone.links(&gli), vec![Link { function: 1, location: loc(0, 3) }]);
    assert_eq!(outer.outermost_location(&gli), loc(0, 3));
    assert_eq!(inner.outermost_location(&gli), loc(2, 1));
    assert_eq!(outer.outermost(&gli), Link { function: 1, location: loc(0, 3) });
    let s = outer.as_global_location_s(&gli);
    assert_eq!(s.function, 1);
    assert_eq!(s.location, loc(0, 3));
    assert_eq!(s.next, Some(inner));
    let leaf = inner.as_global_location_s(&gli);
    assert_eq!(leaf.function, 7);
    assert_eq!(leaf.next, None);
    assert!(RawGlobalLocation::from_links(vec![]).is_none());
    let raw = RawGlobalLocation::from_links(outer.links(&gli)).unwrap();
    assert!(raw.same(&RawGlobalLocation::from(&gli, outer)));
    assert_eq!(raw.intern(&mut gli), outer);
}

#[test]
fn flows_of_a_node_are_listed() {
    let mut gli = GlobalLocationInterner::new();
    let call = Node::Call(gli.globalize_location(loc(0, 0), 0), 5);
    let mut g = FlowGraph::new();
    let mut data = Edge::empty();
    data.add_type(EdgeType::Data(1));
    let mut control = Edge::empty();
    control.add_type(EdgeType::Control);
    g.add_node_at(&gli, Node::Argument(2));
    g.add_weighted_edge(&gli, Node::Argument(0), call, data);
    g.add_weighted_edge(&gli, Node::Argument(1), call, control);
    g.add_weighted_edge(&gli, call, Node::Return, data);
    assert_eq!(g.node_count(), 5);
    let mut incoming = g.incoming_at(&gli, call);
    incoming.sort_by_key(|e| e.0.to_key());
    assert_eq!(incoming, vec![(Node::Argument(0), data), (Node::Argument(1), control)]);
    assert_eq!(g.outgoing_at(&gli, call), vec![(Node::Return, data)]);
    assert_eq!(g.outgoing_at(&gli, Node::Argument(2)), vec![]);
    g.remove_node_at(&gli, call);
    assert!(!g.contains_node(call));
    assert!(g.all_edges().is_empty());
    assert_eq!(g.node_count(), 4);
    assert_eq!(g.incoming_at(&gli, Node::Return), vec![]);
}

#[test]
fn matrices_hand_out_their_parts() {
    let mut gli = GlobalLocationInterner::new();
    let here = gli.globalize_location(loc(0, 0), 0);
    let mut rows: GlobalDepMatrix = ListMap::new();
    rows.push_new(Place::from_local(1), vec![here]);
    let plain = TranslatedDepMatrix::untranslated(rows);
    assert!(!plain.is_translated());
    assert!(plain.translator().is_none());
    assert_eq!(plain.matrix_raw().len(), 1);
    assert_eq!(plain.matrix_raw().get(&Place::from_local(1)), Some(&vec![here]));
    let mut rows: GlobalDepMatrix = ListMap::new();
    rows.push_new(Place::from_local(1), vec![here]);
    let mut translator: Translator = ListMap::new();
    translator.push_new(Place::from_local(4), Place::from_local(1));
    let with = TranslatedDepMatrix::translated(rows, translator);
    assert!(with.is_translated());
    assert_eq!(with.translator().unwrap().len(), 1);
    assert!(with.translator().unwrap().get(&Place::from_local(4)).unwrap().same(&Place::from_local(1)));
    let (place, deps) = with.resolve(&gli, &Place::from_local(4));
    assert!(place.unwrap().same(&Place::from_local(1)));
    assert_eq!(deps, vec![here]);
    assert_eq!(with.resolve_set(&gli, &Place::from_local(1)), Some(&vec![here]));
    assert!(with.resolve_set(&gli, &Place::from_local(7)).is_none());
}

#[test]
fn inliner_knows_its_bodies() {
    let call = Call {
        function: 9,
        arguments: vec![
            Some(Argument { local: 3, dependencies: vec![Target::Argument(0)], writeable: true }),
            None,
            Some(Argument { local: 5, dependencies: vec![], writeable: false }),
        ],
        return_to: None,
        ctrl_deps: vec![],
        generator: None,
    };
    assert_eq!(call.argument_locals(), vec![3, 5]);
    let body = Body {
        calls: vec![(loc(0, 0), call)],
        return_deps: vec![],
        return_arg_deps: vec![vec![]],
        equations: vec![],
    };
    assert!(body.knows_targets(&vec![Target::Call(loc(0, 0)), Target::Argument(0)]));
    assert!(!body.knows_targets(&vec![Target::Call(loc(0, 1))]));
    assert!(body.knows_targets(&vec![Target::Argument(1)]));
    let program = Program { bodies: vec![body], from_generator_fn: None, future_poll_fn: None };
    assert!(program.check());
    let oracle = SkipAnnotatedFunctionSelector { marked: vec![] };
    let mut inliner = Inliner::new(&program, &oracle, AnalysisCtrl::new());
    assert!(inliner.has_body(0));
    assert!(!inliner.has_body(1));
    assert_eq!(inliner.cache_size(), 0);
    assert!(inliner.get_inlined_graph_by_def_id(7).is_none());
    assert_eq!(inliner.cache_size(), 0);
    assert!(inliner.get_inlined_graph(0).is_some());
    assert_eq!(inliner.cache_size(), 1);
    assert!(inliner.get_inlined_graph_by_def_id(0).is_some());
    assert_eq!(inliner.cache_size(), 1);
    assert!(inliner.to_call_only_flow(1, 99).is_none());
}
