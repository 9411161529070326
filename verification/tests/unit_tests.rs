use dfpp::algebra::Operator::{ContainsAt, DerefOf, MemberOf, RefOf, Unknown};
use dfpp::algebra::{simplify, solve_reachable, Equality, Term};
use dfpp::edge::{Edge, EdgeType};
use dfpp::global_location::{GliAt, GlobalLocationInterner, Link, Location};
use dfpp::graph::{FlowGraph, Node};
use dfpp::inline::{GlobalLocal, InlinedGraph};
use dfpp::regal::{Argument, Body, Call, Program, Target};
use dfpp::serializers::{LocationProxy, RawGlobalLocation};
use dfpp::traverse::{EdgeKind, EdgeSelection};
use dfpp::utils::{
    hash_pls, is_real_location, locations_of_body, short_hash_pls, RecursionBreakingCache,
    SparseMatrix,
};
use std::cmp::Ordering;

fn loc(block: u32, statement_index: usize) -> Location {
    Location { block, statement_index }
}

#[test]
fn edge_types_are_set_and_removed() {
    let mut e = Edge::empty();
    assert!(e.is_empty());
    e.add_type(EdgeType::Data(3));
    e.add_type(EdgeType::Control);
    e.add_type(EdgeType::Data(0));
    assert_eq!(e.count(), 3);
    assert!(e.is_data());
    assert!(e.is_control());
    assert_eq!(e.into_types_iter(), vec![EdgeType::Data(0), EdgeType::Data(3), EdgeType::Control]);
    assert!(e.remove_type(EdgeType::Data(3)));
    assert!(!e.remove_type(EdgeType::Data(3)));
    assert!(!e.remove_type(EdgeType::Data(40)));
    assert!(e.remove_type(EdgeType::Control));
    assert_eq!(e.into_types_iter(), vec![EdgeType::Data(0)]);
    assert!(!e.is_control());
    assert!(e.has_type(EdgeType::Data(0)));
}

#[test]
fn edges_merge_by_union() {
    let mut a = Edge::empty();
    a.add_type(EdgeType::Data(1));
    let mut b = Edge::empty();
    b.add_type(EdgeType::Data(15));
    b.add_type(EdgeType::Control);
    a.merge(b);
    assert_eq!(a.into_types_iter(), vec![EdgeType::Data(1), EdgeType::Data(15), EdgeType::Control]);
    assert_eq!(Edge::from_key(a.to_key()), a);
    let before = a;
    a.merge(Edge::empty());
    assert_eq!(a, before);
}

#[test]
fn edge_selection_conforms() {
    assert!(EdgeSelection::Both.use_control() && EdgeSelection::Both.use_data());
    assert!(EdgeSelection::Control.use_control() && !EdgeSelection::Control.use_data());
    assert!(!EdgeSelection::Data.use_control() && EdgeSelection::Data.use_data());
    assert!(EdgeSelection::Both.conforms(EdgeKind::Data));
    assert!(EdgeSelection::Both.conforms(EdgeKind::Control));
    assert!(EdgeSelection::Data.conforms(EdgeKind::Data));
    assert!(!EdgeSelection::Data.conforms(EdgeKind::Control));
    assert!(!EdgeSelection::Control.conforms(EdgeKind::Data));
    assert!(EdgeSelection::Control.conforms(EdgeKind::Control));
    assert!(EdgeSelection::Data.is_data() && !EdgeSelection::Data.is_both());
    assert!(EdgeSelection::Control.is_control());
}

#[test]
fn interning_is_canonical() {
    let mut gli = GlobalLocationInterner::new();
    let a = gli.globalize_location(loc(0, 1), 7);
    let b = gli.globalize_location(loc(0, 1), 7);
    let c = gli.globalize_location(loc(0, 2), 7);
    assert_eq!(a, b);
    assert_ne!(a, c);
    assert_eq!(a.stable_id(), b.stable_id());
    let n1 = gli.global_location_from_relative(a, loc(3, 0), 2);
    let n2 = gli.global_location_from_relative(b, loc(3, 0), 2);
    let n3 = gli.global_location_from_relative(c, loc(3, 0), 2);
    assert_eq!(n1, n2);
    assert_ne!(n1, n3);
    assert_eq!(gli.len(), 4);
    let chain = vec![
        Link { function: 2, location: loc(3, 0) },
        Link { function: 7, location: loc(0, 1) },
    ];
    assert_eq!(gli.intern_chain(&chain), n1);
    assert_eq!(n1.links(&gli), chain);
    assert_eq!(gli.len(), 4);
}

#[test]
fn global_location_navigation() {
    let mut gli = GlobalLocationInterner::new();
    let inner = gli.globalize_location(loc(5, 2), 3);
    let mid = gli.global_location_from_relative(inner, loc(4, 1), 2);
    let outer = gli.global_location_from_relative(mid, loc(1, 0), 1);
    assert!(inner.is_at_root(&gli));
    assert!(!outer.is_at_root(&gli));
    assert_eq!(inner.as_local(&gli), Some(loc(5, 2)));
    assert_eq!(outer.as_local(&gli), None);
    assert_eq!(outer.function(&gli), 1);
    assert_eq!(outer.location(&gli), loc(1, 0));
    assert_eq!(outer.next(&gli), Some(mid));
    assert_eq!(inner.next(&gli), None);
    assert_eq!(outer.innermost_location_and_body(&gli), (loc(5, 2), 3));
    assert_eq!(outer.innermost_location(&gli), loc(5, 2));
    assert_eq!(outer.innermost_function(&gli), 3);
    assert_eq!(outer.outermost(&gli), Link { function: 1, location: loc(1, 0) });
    assert_eq!(outer.parent(&gli), Some(mid));
    assert_eq!(mid.parent(&gli), Some(mid));
    assert_eq!(inner.parent(&gli), None);
    assert_eq!(outer.iter(&gli), vec![outer, mid, inner]);
    assert_eq!(outer.call_stack(&gli).len(), 2);
    let at = GliAt::at(loc(1, 0), 1);
    assert_eq!(at.relativize(&mut gli, mid), outer);
    let raw = RawGlobalLocation::from(&gli, outer);
    assert_eq!(raw.links().len(), 3);
    assert_eq!(raw.innermost_location_and_body(), (loc(5, 2), 3));
    assert_eq!(raw.intern(&mut gli), outer);
    assert!(raw.parent().unwrap().same(&RawGlobalLocation::from(&gli, mid)));
    assert!(raw.next().unwrap().same(&RawGlobalLocation::from(&gli, mid)));
    assert!(!raw.is_at_root());
    assert_eq!(raw.as_local(), None);
}

#[test]
fn global_locations_are_ordered_by_chain() {
    let mut gli = GlobalLocationInterner::new();
    let late = gli.globalize_location(loc(9, 9), 1);
    let early = gli.globalize_location(loc(0, 1), 1);
    let other_fn = gli.globalize_location(loc(0, 0), 2);
    let nested = gli.global_location_from_relative(late, loc(0, 1), 1);
    assert_eq!(early.cmp(late, &gli), Ordering::Less);
    assert_eq!(late.cmp(early, &gli), Ordering::Greater);
    assert_eq!(late.cmp(late, &gli), Ordering::Equal);
    assert_eq!(late.cmp(other_fn, &gli), Ordering::Less);
    // A location that is not nested comes before the same location with a
    // continuation.
    assert_eq!(early.cmp(nested, &gli), Ordering::Less);
    assert_eq!(nested.cmp(early, &gli), Ordering::Greater);
    assert_eq!(early.partial_cmp(late, &gli), Some(Ordering::Less));
}

#[test]
fn operators_cancel() {
    assert_eq!(simplify(&vec![RefOf, DerefOf]), Some(vec![]));
    assert_eq!(simplify(&vec![DerefOf, RefOf]), Some(vec![]));
    assert_eq!(simplify(&vec![ContainsAt(1), MemberOf(1)]), Some(vec![]));
    assert_eq!(simplify(&vec![MemberOf(1), ContainsAt(1)]), Some(vec![]));
    assert_eq!(simplify(&vec![ContainsAt(1), MemberOf(2)]), None);
    assert_eq!(simplify(&vec![MemberOf(1), ContainsAt(2)]), Some(vec![MemberOf(1), ContainsAt(2)]));
    assert_eq!(
        simplify(&vec![MemberOf(3), RefOf, DerefOf, ContainsAt(3), DerefOf]),
        Some(vec![DerefOf])
    );
    assert_eq!(simplify(&vec![ContainsAt(1), MemberOf(2), Unknown]), Some(vec![Unknown]));
    assert_eq!(simplify(&vec![DerefOf, Unknown, MemberOf(1)]), Some(vec![Unknown]));
    assert_eq!(RefOf.flip(), DerefOf);
    assert_eq!(MemberOf(4).flip(), ContainsAt(4));
    assert_eq!(Unknown.flip(), Unknown);
}

fn base(x: u32) -> Term<u32> {
    Term::new_base(x)
}

#[test]
fn solver_follows_equalities_both_ways() {
    let eqs = vec![Equality::new(base(1), base(2)), Equality::new(base(3), base(2))];
    assert!(solve_reachable(&eqs, &1, &vec![3]));
    assert!(solve_reachable(&eqs, &3, &vec![1]));
    assert!(solve_reachable(&eqs, &1, &vec![7, 2]));
    assert!(!solve_reachable(&eqs, &1, &vec![4]));
    assert!(solve_reachable(&eqs, &4, &vec![4]));
    assert!(!solve_reachable(&eqs, &1, &vec![]));
    assert!(!solve_reachable(&vec![], &1, &vec![2]));
}

#[test]
fn solver_respects_fields() {
    // 1 is an aggregate with 2 at field 0; 3 is field 1 of 1: 2 and 3 do not
    // overlap.
    let apart = vec![
        Equality::new(base(1), base(2).add_contains_at(0)),
        Equality::new(base(3), base(1).add_member_of(1)),
    ];
    assert!(!solve_reachable(&apart, &3, &vec![2]));
    assert!(solve_reachable(&apart, &3, &vec![1]));
    let same = vec![
        Equality::new(base(1), base(2).add_contains_at(0)),
        Equality::new(base(3), base(1).add_member_of(0)),
    ];
    assert!(solve_reachable(&same, &3, &vec![2]));
    // An unknown projection is compatible with everything.
    let unknown = vec![
        Equality::new(base(1), base(2).add_contains_at(0)),
        Equality::new(base(3).add_unknown(), base(1).add_member_of(1)),
    ];
    assert!(solve_reachable(&unknown, &3, &vec![2]));
    let through_pointer = vec![
        Equality::new(base(1), base(2).add_ref_of()),
        Equality::new(base(3), base(1).add_deref_of()),
    ];
    assert!(solve_reachable(&through_pointer, &3, &vec![2]));
}

#[test]
fn solver_on_global_locals() {
    let site = Link { function: 0, location: loc(1, 0) };
    let eqs = vec![Equality::new(
        Term::new_base(GlobalLocal::at_root(1)),
        Term::new_base(GlobalLocal::relative(1, vec![site])),
    )];
    assert!(solve_reachable(&eqs, &GlobalLocal::at_root(1), &vec![GlobalLocal::relative(1, vec![site])]));
    assert!(!solve_reachable(&eqs, &GlobalLocal::at_root(1), &vec![GlobalLocal::relative(2, vec![site])]));
    assert!(!solve_reachable(&eqs, &GlobalLocal::at_root(1), &vec![GlobalLocal::relative(1, vec![])
        .relativize(Link { function: 0, location: loc(2, 0) })]));
    assert_eq!(GlobalLocal::at_root(4).relativize(site).location().as_slice(), &[site]);
    assert_eq!(GlobalLocal::at_root(4).local(), 4);
}

#[test]
fn flow_graph_stores_edges() {
    let gli = GlobalLocationInterner::new();
    let mut g = FlowGraph::new();
    let mut w = Edge::empty();
    w.add_type(EdgeType::Data(0));
    assert_eq!(g.add_edge(Node::Argument(0), Node::Return, w), None);
    assert!(g.contains_edge(Node::Argument(0), Node::Return));
    assert!(!g.contains_edge(Node::Return, Node::Argument(0)));
    assert!(g.contains_node(Node::Return));
    assert_eq!(g.node_count(), 2);
    let mut c = Edge::empty();
    c.add_type(EdgeType::Control);
    g.add_weighted_edge(&gli, Node::Argument(0), Node::Return, c);
    let merged = g.edge_weight(Node::Argument(0), Node::Return).unwrap();
    assert_eq!(merged.into_types_iter(), vec![EdgeType::Data(0), EdgeType::Control]);
    assert_eq!(g.add_edge(Node::Argument(0), Node::Return, w), Some(merged));
    g.add_weighted_edge(&gli, Node::Argument(1), Node::Return, c);
    g.add_weighted_edge(&gli, Node::Return, Node::Return, c);
    let mut incoming: Vec<Node> = g.incoming(Node::Return).into_iter().map(|e| e.0).collect();
    incoming.sort_by_key(|n| n.to_key());
    assert_eq!(incoming, vec![Node::Return, Node::Argument(0), Node::Argument(1)]);
    assert_eq!(g.outgoing(Node::Argument(0)), vec![(Node::Return, w)]);
    assert_eq!(g.all_edges().len(), 3);
    assert_eq!(g.node_list().len(), 3);
    g.set_weight_at(&gli, Node::Argument(1), Node::Return, Edge::empty());
    assert!(!g.contains_edge(Node::Argument(1), Node::Return));
    assert!(g.contains_node(Node::Argument(1)));
    assert_eq!(g.remove_edge(Node::Return, Node::Return), Some(c));
    assert_eq!(g.remove_edge(Node::Return, Node::Return), None);
    assert!(g.remove_node(Node::Return));
    assert!(!g.remove_node(Node::Return));
    assert!(g.all_edges().is_empty());
    assert_eq!(g.node_count(), 2);
    g.add_node(Node::Call(dfpp::global_location::GlobalLocation { id: 3 }, 9));
    assert_eq!(Node::from_key(Node::Call(dfpp::global_location::GlobalLocation { id: 3 }, 9).to_key()),
        Node::Call(dfpp::global_location::GlobalLocation { id: 3 }, 9));
    assert_eq!(g.node_count(), 3);
}

#[test]
fn graph_of_a_summary() {
    let call = Call {
        function: 50,
        arguments: vec![Some(Argument {
            local: 1,
            dependencies: vec![Target::Argument(0), Target::Argument(0)],
            writeable: false,
        })],
        return_to: Some(2),
        ctrl_deps: vec![Target::Argument(1)],
        generator: None,
    };
    let body = Body {
        calls: vec![(loc(0, 0), call)],
        return_deps: vec![Target::Call(loc(0, 0))],
        return_arg_deps: vec![vec![], vec![Target::Call(loc(0, 0))]],
        equations: vec![],
    };
    assert!(body.check());
    assert_eq!(body.call_at(loc(0, 0)), Some(0));
    assert_eq!(body.call_at(loc(0, 1)), None);
    let mut gli = GlobalLocationInterner::new();
    let g = InlinedGraph::from_body(&mut gli, 0, &body);
    let node = Node::Call(gli.globalize_location(loc(0, 0), 0), 50);
    let graph = g.graph();
    assert_eq!(graph.node_count(), 4);
    assert_eq!(graph.edge_weight(Node::Argument(0), node).unwrap().into_types_iter(), vec![
        EdgeType::Data(0)
    ]);
    assert_eq!(graph.edge_weight(Node::Argument(1), node).unwrap().into_types_iter(), vec![
        EdgeType::Control
    ]);
    assert_eq!(graph.edge_weight(node, Node::Return).unwrap().into_types_iter(), vec![
        EdgeType::Data(0)
    ]);
    assert_eq!(graph.edge_weight(node, Node::Argument(1)).unwrap().into_types_iter(), vec![
        EdgeType::Data(0)
    ]);
    assert_eq!(graph.all_edges().len(), 4);
    assert_eq!(g.inlined_functions_count(), 0);
    assert_eq!(g.max_call_stack_depth(), 0);
    assert!(g.equations().is_empty());
    let program = Program { bodies: vec![body], from_generator_fn: None, future_poll_fn: None };
    assert_eq!(program.as_local(0), Some(0));
    assert_eq!(program.as_local(1), None);
}

#[test]
fn sparse_matrix_rows() {
    let mut m = SparseMatrix::new();
    assert!(!m.has(1));
    assert!(m.set(1, 10));
    assert!(!m.set(1, 10));
    assert!(m.set(1, 11));
    assert!(m.has(1));
    assert!(m.contains(1, 11));
    assert!(!m.contains(2, 11));
    assert_eq!(m.row(1), vec![10, 11]);
    assert!(m.row(2).is_empty());
    let i = m.row_mut(2);
    assert_eq!(i, 1);
    assert!(!m.has(2));
    assert!(!m.union_row(2, &vec![]));
    assert!(m.union_row(2, &vec![5, 6, 5]));
    assert!(!m.union_row(2, &vec![6]));
    assert!(m.union_row(1, &vec![10, 12]));
    assert_eq!(m.row(1), vec![10, 11, 12]);
    let (keys, rows) = m.rows();
    assert_eq!(keys, &vec![1, 2]);
    assert_eq!(rows[1], vec![5, 6]);
}

#[test]
fn hashes_are_short() {
    assert_eq!(hash_pls(b"abc"), hash_pls(b"abc"));
    assert_ne!(hash_pls(b"abc"), hash_pls(b"abd"));
    assert_eq!(short_hash_pls(b"abc"), hash_pls(b"abc") % 0x1_000_000);
    assert!(short_hash_pls(b"some function") < 0x1_000_000);
}

#[test]
fn locations_of_a_body() {
    let statements = vec![2, 0];
    assert_eq!(locations_of_body(&statements), vec![loc(0, 0), loc(0, 1), loc(0, 2), loc(1, 0)]);
    assert!(locations_of_body(&vec![]).is_empty());
    assert!(is_real_location(&statements, loc(0, 2)));
    assert!(!is_real_location(&statements, loc(0, 3)));
    assert!(is_real_location(&statements, loc(1, 0)));
    assert!(!is_real_location(&statements, loc(2, 0)));
}

#[test]
fn cache_breaks_recursion() {
    let mut cache: RecursionBreakingCache<u32> = RecursionBreakingCache::new(3);
    assert_eq!(cache.len(), 3);
    assert_eq!(cache.size(), 0);
    assert_eq!(cache.get(1), None);
    assert!(cache.start(1));
    assert!(!cache.start(1));
    assert_eq!(cache.get(1), None);
    assert_eq!(cache.size(), 1);
    cache.finish(1, 42);
    assert_eq!(cache.get(1), Some(&42));
    assert!(!cache.start(1));
    assert!(cache.start(2));
    cache.reset(2);
    assert_eq!(cache.size(), 1);
    assert!(cache.start(2));
    assert_eq!(cache.get(7), None);
}

#[test]
fn location_proxy_round_trip() {
    let p = LocationProxy::from_location(loc(3, 4));
    assert_eq!(p, LocationProxy { block: 3, statement_index: 4 });
    assert_eq!(p.into_location(), Some(loc(3, 4)));
    assert_eq!(LocationProxy { block: usize::MAX, statement_index: 0 }.into_location(), None);
}

#[test]
fn numbers_are_given_in_the_order_of_meeting() {
    let mut r = dfpp::hashing::Reindexer::new(3);
    assert_eq!(r.reindex(40), 3);
    assert_eq!(r.reindex(7), 4);
    assert_eq!(r.reindex(40), 3);
    assert_eq!(r.reindex(0), 5);
    assert_eq!(r.reindex(7), 4);
    let mut top = dfpp::hashing::Reindexer::new(u32::MAX - 1);
    assert_eq!(top.reindex(9), u32::MAX - 1);
    assert_eq!(top.reindex(9), u32::MAX - 1);
}

#[test]
fn hash_of_a_collection_ignores_the_order() {
    let a = vec![b"one".to_vec(), b"two".to_vec(), b"three".to_vec()];
    let b = vec![b"three".to_vec(), b"one".to_vec(), b"two".to_vec()];
    let c = vec![b"three".to_vec(), b"one".to_vec()];
    let h = dfpp::hashing::order_independent_hash(&a);
    assert_eq!(h, dfpp::hashing::order_independent_hash(&b));
    assert_ne!(h, dfpp::hashing::order_independent_hash(&c));
    assert_eq!(dfpp::hashing::order_independent_hash(&vec![]), 0);
    assert_eq!(dfpp::hashing::order_independent_hash(&vec![b"one".to_vec()]), hash_pls(b"one"));
    assert_eq!(dfpp::hashing::order_independent_sum(&vec![u64::MAX, 2, 5]), 6);
    assert_eq!(dfpp::hashing::order_independent_sum(&vec![1, 2, 3]), 6);
}
