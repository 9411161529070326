use dfpp::edge::{Edge, EdgeType};
use dfpp::global_location::{GlobalLocationInterner, Location};
use dfpp::graph::{FlowGraph, Node};
use dfpp::inline::InlinedGraph;
use dfpp::regal::{Argument, Body, Call, Target};
use dfpp::search::reachable;
use dfpp::traverse::{generic_flows_to, EdgeSelection};

fn weight(types: &[EdgeType]) -> Edge {
    let mut e = Edge::empty();
    for t in types {
        e.add_type(*t);
    }
    e
}

/// Argument 0 feeds argument 1 with data, argument 1 decides whether
/// argument 2 is reached, argument 2 feeds the return value in both ways.
/// Argument 3 stands alone.
fn mixed_graph() -> FlowGraph {
    let mut g = FlowGraph::new();
    g.add_edge(Node::Argument(0), Node::Argument(1), weight(&[EdgeType::Data(0)]));
    g.add_edge(Node::Argument(1), Node::Argument(2), weight(&[EdgeType::Control]));
    g.add_edge(Node::Argument(2), Node::Return, weight(&[EdgeType::Data(1), EdgeType::Control]));
    g.add_node(Node::Argument(3));
    g
}

#[test]
fn search_marks_what_is_reached() {
    let succ: Vec<Vec<usize>> = vec![vec![1, 2], vec![2], vec![0], vec![4], vec![]];
    assert_eq!(reachable(&succ, &vec![0]), vec![true, true, true, false, false]);
    assert_eq!(reachable(&succ, &vec![3]), vec![false, false, false, true, true]);
    assert_eq!(reachable(&succ, &vec![4, 1]), vec![true, true, true, false, true]);
    assert_eq!(reachable(&succ, &vec![]), vec![false, false, false, false, false]);
    assert_eq!(reachable(&vec![], &vec![]), Vec::<bool>::new());
}

#[test]
fn selection_keeps_edges_of_its_kind() {
    let data = weight(&[EdgeType::Data(4)]);
    let control = weight(&[EdgeType::Control]);
    let both = weight(&[EdgeType::Data(0), EdgeType::Control]);
    assert!(EdgeSelection::Data.keeps(data));
    assert!(!EdgeSelection::Data.keeps(control));
    assert!(EdgeSelection::Data.keeps(both));
    assert!(!EdgeSelection::Control.keeps(data));
    assert!(EdgeSelection::Control.keeps(control));
    assert!(EdgeSelection::Both.keeps(data));
    assert!(EdgeSelection::Both.keeps(control));
    assert!(!EdgeSelection::Both.keeps(Edge::empty()));
}

#[test]
fn filtered_graph_lists_followed_edges() {
    let g = mixed_graph();
    let nodes = g.node_list();
    let at = |n: Node| nodes.iter().position(|m| *m == n).unwrap();
    let data = EdgeSelection::Data.filter_graph(&g, &nodes);
    assert_eq!(data.len(), nodes.len());
    assert_eq!(data[at(Node::Argument(0))], vec![at(Node::Argument(1))]);
    assert_eq!(data[at(Node::Argument(1))], Vec::<usize>::new());
    assert_eq!(data[at(Node::Argument(2))], vec![at(Node::Return)]);
    let control = EdgeSelection::Control.filter_graph(&g, &nodes);
    assert_eq!(control[at(Node::Argument(0))], Vec::<usize>::new());
    assert_eq!(control[at(Node::Argument(1))], vec![at(Node::Argument(2))]);
    assert_eq!(control[at(Node::Argument(2))], vec![at(Node::Return)]);
    assert_eq!(control[at(Node::Argument(3))], Vec::<usize>::new());
}

#[test]
fn flows_follow_the_selected_edges() {
    let g = mixed_graph();
    let a0 = vec![Node::Argument(0)];
    let a1 = vec![Node::Argument(1)];
    let a2 = vec![Node::Argument(2)];
    let ret = vec![Node::Return];
    assert!(generic_flows_to(&a0, EdgeSelection::Both, &g, &ret));
    assert!(!generic_flows_to(&a0, EdgeSelection::Data, &g, &ret));
    assert!(!generic_flows_to(&a0, EdgeSelection::Control, &g, &ret));
    assert!(generic_flows_to(&a0, EdgeSelection::Data, &g, &a1));
    assert!(generic_flows_to(&a1, EdgeSelection::Control, &g, &ret));
    assert!(generic_flows_to(&a2, EdgeSelection::Data, &g, &ret));
    assert!(!generic_flows_to(&ret, EdgeSelection::Both, &g, &a0));
    assert!(generic_flows_to(&vec![Node::Argument(3), Node::Argument(1)], EdgeSelection::Both, &g, &ret));
    assert!(!generic_flows_to(&vec![Node::Argument(3)], EdgeSelection::Both, &g, &ret));
}

#[test]
fn flows_to_without_ends() {
    let g = mixed_graph();
    let a0 = vec![Node::Argument(0)];
    assert!(!generic_flows_to(&vec![], EdgeSelection::Both, &g, &a0));
    assert!(!generic_flows_to(&a0, EdgeSelection::Both, &g, &vec![]));
    assert!(generic_flows_to(&a0, EdgeSelection::Data, &g, &a0));
    let stranger = vec![Node::Argument(9)];
    assert!(generic_flows_to(&stranger, EdgeSelection::Data, &g, &stranger));
    assert!(!generic_flows_to(&stranger, EdgeSelection::Both, &g, &a0));
    assert!(!generic_flows_to(&a0, EdgeSelection::Both, &g, &stranger));
}

#[test]
fn flows_to_on_a_cycle() {
    let mut g = FlowGraph::new();
    g.add_edge(Node::Argument(0), Node::Argument(1), weight(&[EdgeType::Data(0)]));
    g.add_edge(Node::Argument(1), Node::Argument(0), weight(&[EdgeType::Data(0)]));
    g.add_edge(Node::Argument(1), Node::Argument(1), weight(&[EdgeType::Data(0)]));
    g.add_edge(Node::Argument(2), Node::Argument(0), weight(&[EdgeType::Data(0)]));
    assert!(generic_flows_to(&vec![Node::Argument(0)], EdgeSelection::Data, &g, &vec![Node::Argument(1)]));
    assert!(generic_flows_to(&vec![Node::Argument(2)], EdgeSelection::Data, &g, &vec![Node::Argument(1)]));
    assert!(!generic_flows_to(&vec![Node::Argument(0)], EdgeSelection::Data, &g, &vec![Node::Argument(2)]));
}

#[test]
fn graph_sizes_are_counted() {
    let call = Call {
        function: 50,
        arguments: vec![
            Some(Argument { local: 1, dependencies: vec![Target::Argument(0)], writeable: false }),
            Some(Argument { local: 2, dependencies: vec![Target::Argument(0)], writeable: false }),
        ],
        return_to: Some(3),
        ctrl_deps: vec![Target::Argument(0), Target::Argument(1)],
        generator: None,
    };
    let at = Location { block: 0, statement_index: 0 };
    let body = Body {
        calls: vec![(at, call)],
        return_deps: vec![Target::Call(at)],
        return_arg_deps: vec![vec![], vec![]],
        equations: vec![],
    };
    let mut gli = GlobalLocationInterner::new();
    let g = InlinedGraph::from_body(&mut gli, 0, &body);
    assert_eq!(g.vertex_count(&gli), 4);
    // argument 0 feeds the call in three ways, argument 1 in one, and the
    // call feeds the return value
    assert_eq!(g.edge_count(&gli), 5);
    assert_eq!(g.graph().all_edges().len(), 3);
    let empty = InlinedGraph::from_body(&mut gli, 1, &Body {
        calls: vec![],
        return_deps: vec![],
        return_arg_deps: vec![],
        equations: vec![],
    });
    assert_eq!(empty.vertex_count(&gli), 1);
    assert_eq!(empty.edge_count(&gli), 0);
}
