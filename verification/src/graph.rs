//! Flow graphs: directed graphs over call sites, formal arguments and the
//! return value, stored in a `petgraph` graph map whose nodes and edge
//! weights are tuples of integers.

use crate::edge::{Edge, EdgeType};
use crate::global_location::{GlobalLocation, GlobalLocationInterner, Link};
use petgraph::graphmap::GraphMap;
use petgraph::Directed;
use vstd::prelude::*;

verus! {

/// Identifies a procedure, with or without a body. The procedures with a
/// body have the smallest numbers, in declaration order.
pub type DefId = u64;

/// A node as the graph map stores it: a tag, an argument index, the handle
/// of a global location and the called procedure.
pub type NodeKey = (u8, u32, usize, u64);

/// An edge weight as the graph map stores it: the bits of the argument
/// positions and the control flag.
pub type WeightKey = (u16, bool);

/// The graph map that holds a flow graph.
pub type RawGraph = GraphMap<NodeKey, WeightKey, Directed>;

/// The nodes of a graph map.
pub type NodeKeys = Set<NodeKey>;

/// The edges of a graph map, each with its weight.
pub type Weights = Map<(NodeKey, NodeKey), WeightKey>;

/// `petgraph::graphmap::GraphMap`, taken as a type whose inside is not
/// looked at.
#[verifier::external_type_specification]
#[verifier::external_body]
#[verifier::reject_recursive_types(N)]
#[verifier::reject_recursive_types(E)]
#[verifier::reject_recursive_types(Ty)]
#[verifier::reject_recursive_types(S)]
pub struct ExGraphMap<N, E, Ty, S: core::hash::BuildHasher>(GraphMap<N, E, Ty, S>);

/// `petgraph::Directed`, the marker of directed graphs.
#[verifier::external_type_specification]
#[verifier::external_body]
pub struct ExDirected(Directed);

/// The nodes that a graph map holds.
pub uninterp spec fn graph_nodes(g: GraphMap<NodeKey, WeightKey, Directed>) -> Set<NodeKey>;

/// The edges that a graph map holds, each with its weight.
pub uninterp spec fn graph_edges(g: GraphMap<NodeKey, WeightKey, Directed>) -> Map<(NodeKey, NodeKey), WeightKey>;

/// `GraphMap::new`: a graph map without nodes and without edges.
#[verifier::external_body]
fn raw_new() -> (g: RawGraph)
    ensures
        graph_nodes(g) == NodeKeys::empty(),
        graph_edges(g) == Weights::empty(),
{
    GraphMap::new()
}

/// `GraphMap::add_node`: the node is among the nodes afterwards; the edges
/// stay as they were.
#[verifier::external_body]
fn raw_add_node(g: &mut RawGraph, n: NodeKey)
    ensures
        graph_nodes(*final(g)) == graph_nodes(*old(g)).insert(n),
        graph_edges(*final(g)) == graph_edges(*old(g)),
{
    g.add_node(n);
}

/// `GraphMap::add_edge`: the edge from `a` to `b` has the given weight
/// afterwards, both ends are among the nodes, and the weight that the edge
/// had before is returned.
#[verifier::external_body]
fn raw_add_edge(g: &mut RawGraph, a: NodeKey, b: NodeKey, w: WeightKey) -> (r: Option<WeightKey>)
    ensures
        graph_nodes(*final(g)) == graph_nodes(*old(g)).insert(a).insert(b),
        graph_edges(*final(g)) == graph_edges(*old(g)).insert((a, b), w),
        r == if graph_edges(*old(g)).dom().contains((a, b)) {
            Some(graph_edges(*old(g))[(a, b)])
        } else {
            None
        },
{
    g.add_edge(a, b, w)
}

/// `GraphMap::remove_node`: the node and every edge from or to it are gone
/// afterwards; says whether the node was there.
#[verifier::external_body]
fn raw_remove_node(g: &mut RawGraph, n: NodeKey) -> (r: bool)
    ensures
        r == graph_nodes(*old(g)).contains(n),
        graph_nodes(*final(g)) == graph_nodes(*old(g)).remove(n),
        graph_edges(*final(g)) == graph_edges(*old(g)).restrict(
            Set::new(|e: (NodeKey, NodeKey)| e.0 != n && e.1 != n),
        ),
{
    g.remove_node(n)
}

/// `GraphMap::remove_edge`: the edge from `a` to `b` is gone afterwards, the
/// nodes stay, and the weight that the edge had is returned.
#[verifier::external_body]
fn raw_remove_edge(g: &mut RawGraph, a: NodeKey, b: NodeKey) -> (r: Option<WeightKey>)
    ensures
        graph_nodes(*final(g)) == graph_nodes(*old(g)),
        graph_edges(*final(g)) == graph_edges(*old(g)).remove((a, b)),
        r == if graph_edges(*old(g)).dom().contains((a, b)) {
            Some(graph_edges(*old(g))[(a, b)])
        } else {
            None
        },
{
    g.remove_edge(a, b)
}

/// `GraphMap::edge_weight`: the weight of the edge from `a` to `b`, if
/// there is such an edge.
#[verifier::external_body]
fn raw_edge_weight(g: &RawGraph, a: NodeKey, b: NodeKey) -> (r: Option<WeightKey>)
    ensures
        r == if graph_edges(*g).dom().contains((a, b)) {
            Some(graph_edges(*g)[(a, b)])
        } else {
            None
        },
{
    g.edge_weight(a, b).copied()
}

/// `GraphMap::contains_node`: whether the node is among the nodes.
#[verifier::external_body]
fn raw_contains_node(g: &RawGraph, n: NodeKey) -> (r: bool)
    ensures
        r == graph_nodes(*g).contains(n),
{
    g.contains_node(n)
}

/// `GraphMap::nodes`: every node once, in some order.
#[verifier::external_body]
fn raw_nodes(g: &RawGraph) -> (v: Vec<NodeKey>)
    ensures
        v@.no_duplicates(),
        v@.to_set() == graph_nodes(*g),
{
    g.nodes().collect()
}

/// `GraphMap::edges_directed` with `Incoming`: the source and the weight of
/// every edge to `n`, each edge once, in some order.
#[verifier::external_body]
fn raw_incoming(g: &RawGraph, n: NodeKey) -> (v: Vec<(NodeKey, WeightKey)>)
    ensures
        forall|i: int|
            0 <= i < v.len() ==> graph_edges(*g).dom().contains(((#[trigger] v[i]).0, n))
                && graph_edges(*g)[(v[i].0, n)] == v[i].1,
        forall|a: NodeKey| #[trigger]
            graph_edges(*g).dom().contains((a, n)) ==> exists|i: int|
                0 <= i < v.len() && (#[trigger] v[i]).0 == a,
        forall|i: int, j: int| 0 <= i < j < v.len() ==> (#[trigger] v[i]).0 != (#[trigger] v[j]).0,
{
    g.edges_directed(n, petgraph::Direction::Incoming).map(|e| (e.0, *e.2)).collect()
}

/// `GraphMap::edges_directed` with `Outgoing`: the target and the weight of
/// every edge from `n`, each edge once, in some order.
#[verifier::external_body]
fn raw_outgoing(g: &RawGraph, n: NodeKey) -> (v: Vec<(NodeKey, WeightKey)>)
    ensures
        forall|i: int|
            0 <= i < v.len() ==> graph_edges(*g).dom().contains((n, (#[trigger] v[i]).0))
                && graph_edges(*g)[(n, v[i].0)] == v[i].1,
        forall|b: NodeKey| #[trigger]
            graph_edges(*g).dom().contains((n, b)) ==> exists|i: int|
                0 <= i < v.len() && (#[trigger] v[i]).0 == b,
        forall|i: int, j: int| 0 <= i < j < v.len() ==> (#[trigger] v[i]).0 != (#[trigger] v[j]).0,
{
    g.edges_directed(n, petgraph::Direction::Outgoing).map(|e| (e.1, *e.2)).collect()
}

/// `GraphMap::all_edges`: both ends of every edge, each edge once, in some
/// order.
#[verifier::external_body]
fn raw_all_edges(g: &RawGraph) -> (v: Vec<(NodeKey, NodeKey)>)
    ensures
        v@.no_duplicates(),
        v@.to_set() == graph_edges(*g).dom(),
{
    g.all_edges().map(|e| (e.0, e.1)).collect()
}

/// A node of a flow graph.
#[derive(Clone, Copy, PartialEq, Eq, Structural, Debug, Hash)]
pub enum Node {
    /// The return value of the procedure that the graph describes.
    Return,
    /// A formal argument of that procedure, by position.
    Argument(u32),
    /// A call: where it stands, and the procedure it calls.
    Call(GlobalLocation, DefId),
}

/// A node with the chain of its location written out.
pub enum NodeView {
    Return,
    Argument(u32),
    Call(Seq<Link>, DefId),
}

/// A flow: the source, the target and the way in which the source
/// influences the target.
pub type FlowView = (NodeView, NodeView, EdgeType);

impl Node {
    /// The tuple of integers that stores the node.
    pub open spec fn key(self) -> NodeKey {
        match self {
            Node::Return => (0u8, 0u32, 0usize, 0u64),
            Node::Argument(a) => (1u8, a, 0usize, 0u64),
            Node::Call(l, d) => (2u8, 0u32, l.id, d),
        }
    }

    /// The node that a tuple of integers stores.
    pub open spec fn of_key(k: NodeKey) -> Node {
        if k.0 == 0 {
            Node::Return
        } else if k.0 == 1 {
            Node::Argument(k.1)
        } else {
            Node::Call(GlobalLocation { id: k.2 }, k.3)
        }
    }

    /// Whether the node's location, if it has one, was handed out by the
    /// interner.
    pub open spec fn valid(self, gli: &GlobalLocationInterner) -> bool {
        self matches Node::Call(l, _) ==> gli.valid(l)
    }

    /// The node with the chain of its location written out.
    pub open spec fn view(self, gli: &GlobalLocationInterner) -> NodeView {
        match self {
            Node::Return => NodeView::Return,
            Node::Argument(a) => NodeView::Argument(a),
            Node::Call(l, d) => NodeView::Call(gli.chain(l), d),
        }
    }

    /// The node that stands for a written-out node, if the interner holds
    /// the chain.
    pub open spec fn find(gli: &GlobalLocationInterner, v: NodeView) -> Option<Node> {
        match v {
            NodeView::Return => Some(Node::Return),
            NodeView::Argument(a) => Some(Node::Argument(a)),
            NodeView::Call(c, d) => match gli.find(c) {
                Some(l) => Some(Node::Call(l, d)),
                None => None,
            },
        }
    }

    /// A valid node is found again from its written-out form.
    pub proof fn lemma_find_view(self, gli: &GlobalLocationInterner)
        requires
            gli.wf(),
            self.valid(gli),
        ensures
            Node::find(gli, self.view(gli)) == Some(self),
    {
        match self {
            Node::Call(l, _) => {
                gli.lemma_find_chain(l);
            },
            _ => {},
        }
    }

    /// A node that was found is valid and has the written-out form it was
    /// found by.
    pub proof fn lemma_found(gli: &GlobalLocationInterner, v: NodeView)
        requires
            Node::find(gli, v) is Some,
        ensures
            Node::find(gli, v)->0.valid(gli),
            Node::find(gli, v)->0.view(gli) == v,
    {
        match v {
            NodeView::Call(c, _) => {
                gli.lemma_found(c);
            },
            _ => {},
        }
    }

    /// Valid nodes are equal exactly if their written-out forms are.
    pub proof fn lemma_view_injective(self, other: Node, gli: &GlobalLocationInterner)
        requires
            gli.wf(),
            self.valid(gli),
            other.valid(gli),
        ensures
            (self == other) == (self.view(gli) == other.view(gli)),
    {
        self.lemma_find_view(gli);
        other.lemma_find_view(gli);
    }

    /// A node keeps its written-out form when the interner grows.
    pub proof fn lemma_extends_view(
        self,
        gli: &GlobalLocationInterner,
        before: &GlobalLocationInterner,
    )
        requires
            gli.extends(before),
            self.valid(before),
        ensures
            self.valid(gli),
            self.view(gli) == self.view(before),
    {
        match self {
            Node::Call(l, _) => {
                gli.lemma_extends_chain(before, l);
            },
            _ => {},
        }
    }

    /// The tuple of integers that stores the node.
    pub fn to_key(self) -> (k: NodeKey)
        ensures
            k == self.key(),
            Node::of_key(k) == self,
    {
        match self {
            Node::Return => (0, 0, 0, 0),
            Node::Argument(a) => (1, a, 0, 0),
            Node::Call(l, d) => (2, 0, l.id, d),
        }
    }

    /// The node that a tuple of integers stores.
    pub fn from_key(k: NodeKey) -> (n: Node)
        ensures
            n == Node::of_key(k),
    {
        if k.0 == 0 {
            Node::Return
        } else if k.0 == 1 {
            Node::Argument(k.1)
        } else {
            Node::Call(GlobalLocation { id: k.2 }, k.3)
        }
    }
}

/// The flows of one edge: from `x` to `y`, in each of the given ways.
pub open spec fn edge_flows(x: NodeView, y: NodeView, types: Set<EdgeType>) -> Set<FlowView> {
    Set::new(|f: FlowView| f.0 == x && f.1 == y && types.contains(f.2))
}

/// Both ends of every flow.
pub open spec fn flow_nodes(flows: Set<FlowView>) -> Set<NodeView> {
    Set::new(|v: NodeView| exists|f: FlowView| #[trigger] flows.contains(f) && (f.0 == v || f.1 == v))
}

/// Whether the vector lists the sources of the flows to `t`, each with the
/// types of its flows.
pub open spec fn sources_listed(
    gli: &GlobalLocationInterner,
    flows: Set<FlowView>,
    t: NodeView,
    incoming: Seq<(Node, Edge)>,
) -> bool {
    &&& forall|k: int|
        0 <= k < incoming.len() ==> (#[trigger] incoming[k]).0.valid(gli) && incoming[k].1.types()
            != Set::<EdgeType>::empty()
    &&& forall|k: int, ty: EdgeType|
        0 <= k < incoming.len() && (#[trigger] incoming[k]).1.types().contains(ty)
            ==> #[trigger] flows.contains((incoming[k].0.view(gli), t, ty))
    &&& forall|x: NodeView, ty: EdgeType| #[trigger]
        flows.contains((x, t, ty)) ==> exists|k: int|
            0 <= k < incoming.len() && (#[trigger] incoming[k]).0.view(gli) == x
                && incoming[k].1.types().contains(ty)
}

/// Whether the vector lists the targets of the flows from `t`, each with
/// the types of its flows.
pub open spec fn targets_listed(
    gli: &GlobalLocationInterner,
    flows: Set<FlowView>,
    t: NodeView,
    outgoing: Seq<(Node, Edge)>,
) -> bool {
    &&& forall|k: int|
        0 <= k < outgoing.len() ==> (#[trigger] outgoing[k]).0.valid(gli) && outgoing[k].1.types()
            != Set::<EdgeType>::empty()
    &&& forall|k: int, ty: EdgeType|
        0 <= k < outgoing.len() && (#[trigger] outgoing[k]).1.types().contains(ty)
            ==> #[trigger] flows.contains((t, outgoing[k].0.view(gli), ty))
    &&& forall|y: NodeView, ty: EdgeType| #[trigger]
        flows.contains((t, y, ty)) ==> exists|k: int|
            0 <= k < outgoing.len() && (#[trigger] outgoing[k]).0.view(gli) == y
                && outgoing[k].1.types().contains(ty)
}

/// A list of sources stays one when the interner grows.
pub proof fn lemma_sources_listed_extends(
    gli: &GlobalLocationInterner,
    before: &GlobalLocationInterner,
    flows: Set<FlowView>,
    t: NodeView,
    incoming: Seq<(Node, Edge)>,
)
    requires
        gli.extends(before),
        sources_listed(before, flows, t, incoming),
    ensures
        sources_listed(gli, flows, t, incoming),
{
    assert forall|k: int| 0 <= k < incoming.len() implies (#[trigger] incoming[k]).0.valid(gli)
        && incoming[k].0.view(gli) == incoming[k].0.view(before) by {
        incoming[k].0.lemma_extends_view(gli, before);
    }
    assert forall|x: NodeView, ty: EdgeType| #[trigger] flows.contains((x, t, ty)) implies exists|
        k: int,
    |
        0 <= k < incoming.len() && (#[trigger] incoming[k]).0.view(gli) == x
            && incoming[k].1.types().contains(ty) by {
        let k = choose|k: int|
            0 <= k < incoming.len() && (#[trigger] incoming[k]).0.view(before) == x
                && incoming[k].1.types().contains(ty);
        assert(incoming[k].0.view(gli) == x);
    }
}

/// A tuple of integers that is the key of a node.
pub open spec fn canonical(k: NodeKey) -> bool {
    Node::of_key(k).key() == k
}

/// A directed graph over [`Node`]s whose edges carry an [`Edge`]. Between
/// two nodes there is at most one edge in each direction.
pub struct FlowGraph {
    raw: RawGraph,
}

impl FlowGraph {
    /// The nodes of the graph.
    pub closed spec fn nodes(&self) -> Set<Node> {
        Set::new(|n: Node| graph_nodes(self.raw).contains(n.key()))
    }

    /// The edges of the graph, each with its weight.
    pub closed spec fn edges(&self) -> Map<(Node, Node), Edge> {
        Map::new(
            |p: (Node, Node)| graph_edges(self.raw).dom().contains((p.0.key(), p.1.key())),
            |p: (Node, Node)| Edge::of_key(graph_edges(self.raw)[(p.0.key(), p.1.key())]),
        )
    }

    /// The invariant of the graph: both ends of every edge are nodes.
    pub closed spec fn wf(&self) -> bool {
        &&& forall|k: NodeKey| #[trigger] graph_nodes(self.raw).contains(k) ==> canonical(k)
        &&& forall|a: NodeKey, b: NodeKey| #[trigger]
            graph_edges(self.raw).dom().contains((a, b)) ==> graph_nodes(self.raw).contains(a)
                && graph_nodes(self.raw).contains(b)
    }

    /// Whether there is an edge from `a` to `b`.
    pub open spec fn has_edge(&self, a: Node, b: Node) -> bool {
        self.edges().dom().contains((a, b))
    }

    /// Whether `a` influences `b` in the way `t`.
    pub open spec fn has_flow(&self, a: Node, b: Node, t: EdgeType) -> bool {
        self.has_edge(a, b) && self.edges()[(a, b)].types().contains(t)
    }

    /// Whether every node of the graph is valid for the interner.
    pub open spec fn valid(&self, gli: &GlobalLocationInterner) -> bool {
        forall|n: Node| #[trigger] self.nodes().contains(n) ==> n.valid(gli)
    }

    /// Whether every edge of the graph has at least one type.
    pub open spec fn no_empty_edges(&self) -> bool {
        forall|a: Node, b: Node| #[trigger]
            self.has_edge(a, b) ==> self.edges()[(a, b)].types() != Set::<EdgeType>::empty()
    }

    /// The nodes of the graph, written out.
    pub open spec fn node_views(&self, gli: &GlobalLocationInterner) -> Set<NodeView> {
        Set::new(
            |v: NodeView| Node::find(gli, v) is Some && self.nodes().contains(Node::find(gli, v)->0),
        )
    }

    /// The flows of the graph, written out.
    pub open spec fn flows(&self, gli: &GlobalLocationInterner) -> Set<FlowView> {
        Set::new(
            |f: FlowView|
                Node::find(gli, f.0) is Some && Node::find(gli, f.1) is Some && self.has_flow(
                    Node::find(gli, f.0)->0,
                    Node::find(gli, f.1)->0,
                    f.2,
                ),
        )
    }

    /// Both ends of an edge are nodes.
    pub proof fn lemma_endpoints(&self, a: Node, b: Node)
        requires
            self.wf(),
            self.has_edge(a, b),
        ensures
            self.nodes().contains(a),
            self.nodes().contains(b),
    {
    }

    /// The written-out nodes and flows of a graph stay the same when the
    /// interner grows.
    pub proof fn lemma_extends(&self, gli: &GlobalLocationInterner, before: &GlobalLocationInterner)
        requires
            self.wf(),
            before.wf(),
            gli.wf(),
            gli.extends(before),
            self.valid(before),
        ensures
            self.valid(gli),
            self.node_views(gli) == self.node_views(before),
            self.flows(gli) == self.flows(before),
    {
        assert forall|n: Node| #[trigger] self.nodes().contains(n) implies n.valid(gli) by {
            n.lemma_extends_view(gli, before);
        }
        assert forall|v: NodeView|
            (Node::find(gli, v) is Some && self.nodes().contains(Node::find(gli, v)->0)) == (
            Node::find(before, v) is Some && self.nodes().contains(Node::find(before, v)->0)) by {
            lemma_find_extends(gli, before, v);
            if Node::find(gli, v) is Some && self.nodes().contains(Node::find(gli, v)->0) {
                let n = Node::find(gli, v)->0;
                Node::lemma_found(gli, v);
                n.lemma_extends_view(gli, before);
                n.lemma_find_view(before);
            }
        }
        assert(self.node_views(gli) =~= self.node_views(before));
        assert forall|f: FlowView| self.flows(gli).contains(f) == self.flows(before).contains(f) by {
            lemma_find_extends(gli, before, f.0);
            lemma_find_extends(gli, before, f.1);
            if self.flows(gli).contains(f) {
                let a = Node::find(gli, f.0)->0;
                let b = Node::find(gli, f.1)->0;
                self.lemma_endpoints(a, b);
                Node::lemma_found(gli, f.0);
                Node::lemma_found(gli, f.1);
                a.lemma_extends_view(gli, before);
                b.lemma_extends_view(gli, before);
                a.lemma_find_view(before);
                b.lemma_find_view(before);
            }
        }
        assert(self.flows(gli) =~= self.flows(before));
    }

    /// Both ends of a written-out flow are among the written-out nodes.
    pub proof fn lemma_flow_ends(&self, gli: &GlobalLocationInterner)
        requires
            self.wf(),
        ensures
            forall|f: FlowView| #[trigger]
                self.flows(gli).contains(f) ==> self.node_views(gli).contains(f.0)
                    && self.node_views(gli).contains(f.1),
    {
        assert forall|f: FlowView| #[trigger] self.flows(gli).contains(f) implies self.node_views(
            gli,
        ).contains(f.0) && self.node_views(gli).contains(f.1) by {
            self.lemma_endpoints(Node::find(gli, f.0)->0, Node::find(gli, f.1)->0);
        }
    }

    /// A flow is in the graph exactly if its written-out form is among the
    /// written-out flows.
    pub proof fn lemma_flow_view(&self, gli: &GlobalLocationInterner, a: Node, b: Node, t: EdgeType)
        requires
            gli.wf(),
            a.valid(gli),
            b.valid(gli),
        ensures
            self.flows(gli).contains((a.view(gli), b.view(gli), t)) == self.has_flow(a, b, t),
    {
        a.lemma_find_view(gli);
        b.lemma_find_view(gli);
    }

    /// A node is in the graph exactly if its written-out form is among the
    /// written-out nodes.
    pub proof fn lemma_node_view(&self, gli: &GlobalLocationInterner, a: Node)
        requires
            gli.wf(),
            a.valid(gli),
        ensures
            self.node_views(gli).contains(a.view(gli)) == self.nodes().contains(a),
    {
        a.lemma_find_view(gli);
    }

    /// A graph without nodes and edges.
    pub fn new() -> (g: Self)
        ensures
            g.wf(),
            g.nodes() == Set::<Node>::empty(),
            g.edges() == Map::<(Node, Node), Edge>::empty(),
    {
        let g = FlowGraph { raw: raw_new() };
        proof {
            assert(g.nodes() =~= Set::<Node>::empty());
            assert(g.edges() =~= Map::<(Node, Node), Edge>::empty());
        }
        g
    }

    /// Makes `n` a node of the graph.
    pub fn add_node(&mut self, n: Node)
        requires
            old(self).wf(),
        ensures
            final(self).wf(),
            final(self).nodes() == old(self).nodes().insert(n),
            final(self).edges() == old(self).edges(),
    {
        raw_add_node(&mut self.raw, n.to_key());
        proof {
            assert(self.nodes() =~= old(self).nodes().insert(n));
            assert(self.edges() =~= old(self).edges());
        }
    }

    /// Gives the edge from `a` to `b` the weight `w`, and returns the weight
    /// that the edge had before.
    pub fn add_edge(&mut self, a: Node, b: Node, w: Edge) -> (r: Option<Edge>)
        requires
            old(self).wf(),
        ensures
            final(self).wf(),
            final(self).nodes() == old(self).nodes().insert(a).insert(b),
            final(self).edges() == old(self).edges().insert((a, b), w),
            r == if old(self).has_edge(a, b) {
                Some(old(self).edges()[(a, b)])
            } else {
                None
            },
    {
        broadcast use Edge::lemma_of_key, Edge::lemma_key_of;

        let r = raw_add_edge(&mut self.raw, a.to_key(), b.to_key(), w.to_key());
        proof {
            assert(self.nodes() =~= old(self).nodes().insert(a).insert(b));
            assert(self.edges() =~= old(self).edges().insert((a, b), w));
        }
        match r {
            Some(k) => Some(Edge::from_key(k)),
            None => None,
        }
    }

    /// Removes `n` and every edge from or to it; says whether `n` was a
    /// node.
    pub fn remove_node(&mut self, n: Node) -> (r: bool)
        requires
            old(self).wf(),
        ensures
            final(self).wf(),
            r == old(self).nodes().contains(n),
            final(self).nodes() == old(self).nodes().remove(n),
            final(self).edges() == old(self).edges().restrict(
                Set::new(|e: (Node, Node)| e.0 != n && e.1 != n),
            ),
    {
        let r = raw_remove_node(&mut self.raw, n.to_key());
        proof {
            assert(self.nodes() =~= old(self).nodes().remove(n));
            assert(self.edges() =~= old(self).edges().restrict(
                Set::new(|e: (Node, Node)| e.0 != n && e.1 != n),
            ));
        }
        r
    }

    /// Removes the edge from `a` to `b` and returns the weight it had.
    pub fn remove_edge(&mut self, a: Node, b: Node) -> (r: Option<Edge>)
        requires
            old(self).wf(),
        ensures
            final(self).wf(),
            final(self).nodes() == old(self).nodes(),
            final(self).edges() == old(self).edges().remove((a, b)),
            r == if old(self).has_edge(a, b) {
                Some(old(self).edges()[(a, b)])
            } else {
                None
            },
    {
        let r = raw_remove_edge(&mut self.raw, a.to_key(), b.to_key());
        proof {
            assert(self.nodes() =~= old(self).nodes());
            assert(self.edges() =~= old(self).edges().remove((a, b)));
        }
        match r {
            Some(k) => Some(Edge::from_key(k)),
            None => None,
        }
    }

    /// The weight of the edge from `a` to `b`, if there is such an edge.
    pub fn edge_weight(&self, a: Node, b: Node) -> (r: Option<Edge>)
        ensures
            r == if self.has_edge(a, b) {
                Some(self.edges()[(a, b)])
            } else {
                None
            },
    {
        match raw_edge_weight(&self.raw, a.to_key(), b.to_key()) {
            Some(k) => Some(Edge::from_key(k)),
            None => None,
        }
    }

    /// Whether there is an edge from `a` to `b`.
    pub fn contains_edge(&self, a: Node, b: Node) -> (r: bool)
        ensures
            r == self.has_edge(a, b),
    {
        raw_edge_weight(&self.raw, a.to_key(), b.to_key()).is_some()
    }

    /// Whether `n` is a node of the graph.
    pub fn contains_node(&self, n: Node) -> (r: bool)
        ensures
            r == self.nodes().contains(n),
    {
        raw_contains_node(&self.raw, n.to_key())
    }

    /// The nodes of the graph, each once.
    pub fn node_list(&self) -> (v: Vec<Node>)
        requires
            self.wf(),
        ensures
            v@.no_duplicates(),
            v@.to_set() == self.nodes(),
    {
        let keys = raw_nodes(&self.raw);
        let mut v: Vec<Node> = Vec::new();
        let mut i: usize = 0;
        while i < keys.len()
            invariant
                i <= keys.len(),
                v.len() == i,
                self.wf(),
                keys@.no_duplicates(),
                keys@.to_set() == graph_nodes(self.raw),
                forall|k: int| 0 <= k < i ==> (#[trigger] v[k]).key() == keys[k],
            decreases keys.len() - i,
        {
            assert(keys@.to_set().contains(keys[i as int]));
            v.push(Node::from_key(keys[i]));
            i = i + 1;
        }
        proof {
            assert forall|n: Node| v@.to_set().contains(n) == self.nodes().contains(n) by {
                if self.nodes().contains(n) {
                    assert(keys@.to_set().contains(n.key()));
                    let k = choose|k: int| 0 <= k < keys.len() && keys[k] == n.key();
                    assert(v[k].key() == n.key());
                    assert(v@[k] == n);
                }
                if v@.contains(n) {
                    let k = choose|k: int| 0 <= k < v.len() && v[k] == n;
                    assert(keys@.to_set().contains(keys[k]));
                }
            }
            assert(v@.to_set() =~= self.nodes());
        }
        v
    }

    /// The source and the weight of every edge to `n`, each edge once.
    pub fn incoming(&self, n: Node) -> (v: Vec<(Node, Edge)>)
        requires
            self.wf(),
        ensures
            forall|i: int|
                0 <= i < v.len() ==> self.has_edge((#[trigger] v[i]).0, n) && self.edges()[(
                    v[i].0,
                    n,
                )] == v[i].1,
            forall|a: Node| #[trigger]
                self.has_edge(a, n) ==> exists|i: int| 0 <= i < v.len() && (#[trigger] v[i]).0 == a,
            forall|i: int, j: int|
                0 <= i < j < v.len() ==> (#[trigger] v[i]).0 != (#[trigger] v[j]).0,
    {
        let raw = raw_incoming(&self.raw, n.to_key());
        let mut v: Vec<(Node, Edge)> = Vec::new();
        let mut i: usize = 0;
        while i < raw.len()
            invariant
                i <= raw.len(),
                v.len() == i,
                self.wf(),
                forall|k: int|
                    0 <= k < raw.len() ==> graph_edges(self.raw).dom().contains(
                        ((#[trigger] raw[k]).0, n.key()),
                    ) && graph_edges(self.raw)[(raw[k].0, n.key())] == raw[k].1,
                forall|k: int|
                    0 <= k < i ==> (#[trigger] v[k]).0.key() == raw[k].0 && v[k].1 == Edge::of_key(
                        raw[k].1,
                    ),
            decreases raw.len() - i,
        {
            assert(graph_edges(self.raw).dom().contains((raw[i as int].0, n.key())));
            v.push((Node::from_key(raw[i].0), Edge::from_key(raw[i].1)));
            i = i + 1;
        }
        proof {
            assert forall|a: Node| #[trigger] self.has_edge(a, n) implies exists|i: int|
                0 <= i < v.len() && (#[trigger] v[i]).0 == a by {
                assert(graph_edges(self.raw).dom().contains((a.key(), n.key())));
                let k = choose|k: int| 0 <= k < raw.len() && (#[trigger] raw[k]).0 == a.key();
                assert(v[k].0.key() == a.key());
                assert(v[k].0 == a);
            }
        }
        v
    }

    /// The target and the weight of every edge from `n`, each edge once.
    pub fn outgoing(&self, n: Node) -> (v: Vec<(Node, Edge)>)
        requires
            self.wf(),
        ensures
            forall|i: int|
                0 <= i < v.len() ==> self.has_edge(n, (#[trigger] v[i]).0) && self.edges()[(
                    n,
                    v[i].0,
                )] == v[i].1,
            forall|b: Node| #[trigger]
                self.has_edge(n, b) ==> exists|i: int| 0 <= i < v.len() && (#[trigger] v[i]).0 == b,
            forall|i: int, j: int|
                0 <= i < j < v.len() ==> (#[trigger] v[i]).0 != (#[trigger] v[j]).0,
    {
        let raw = raw_outgoing(&self.raw, n.to_key());
        let mut v: Vec<(Node, Edge)> = Vec::new();
        let mut i: usize = 0;
        while i < raw.len()
            invariant
                i <= raw.len(),
                v.len() == i,
                self.wf(),
                forall|k: int|
                    0 <= k < raw.len() ==> graph_edges(self.raw).dom().contains(
                        (n.key(), (#[trigger] raw[k]).0),
                    ) && graph_edges(self.raw)[(n.key(), raw[k].0)] == raw[k].1,
                forall|k: int|
                    0 <= k < i ==> (#[trigger] v[k]).0.key() == raw[k].0 && v[k].1 == Edge::of_key(
                        raw[k].1,
                    ),
            decreases raw.len() - i,
        {
            assert(graph_edges(self.raw).dom().contains((n.key(), raw[i as int].0)));
            v.push((Node::from_key(raw[i].0), Edge::from_key(raw[i].1)));
            i = i + 1;
        }
        proof {
            assert forall|b: Node| #[trigger] self.has_edge(n, b) implies exists|i: int|
                0 <= i < v.len() && (#[trigger] v[i]).0 == b by {
                assert(graph_edges(self.raw).dom().contains((n.key(), b.key())));
                let k = choose|k: int| 0 <= k < raw.len() && (#[trigger] raw[k]).0 == b.key();
                assert(v[k].0.key() == b.key());
                assert(v[k].0 == b);
            }
        }
        v
    }

    /// Both ends of every edge of the graph, each edge once.
    pub fn all_edges(&self) -> (v: Vec<(Node, Node)>)
        requires
            self.wf(),
        ensures
            v@.no_duplicates(),
            v@.to_set() == self.edges().dom(),
    {
        let raw = raw_all_edges(&self.raw);
        let mut v: Vec<(Node, Node)> = Vec::new();
        let mut i: usize = 0;
        while i < raw.len()
            invariant
                i <= raw.len(),
                v.len() == i,
                self.wf(),
                raw@.no_duplicates(),
                raw@.to_set() == graph_edges(self.raw).dom(),
                forall|k: int|
                    0 <= k < i ==> (#[trigger] v[k]).0.key() == raw[k].0 && v[k].1.key()
                        == raw[k].1,
            decreases raw.len() - i,
        {
            assert(raw@.to_set().contains(raw[i as int]));
            assert(graph_edges(self.raw).dom().contains((raw[i as int].0, raw[i as int].1)));
            v.push((Node::from_key(raw[i].0), Node::from_key(raw[i].1)));
            i = i + 1;
        }
        proof {
            assert forall|e: (Node, Node)| v@.to_set().contains(e) == self.edges().dom().contains(
                e,
            ) by {
                if self.edges().dom().contains(e) {
                    assert(raw@.to_set().contains((e.0.key(), e.1.key())));
                    let k = choose|k: int| 0 <= k < raw.len() && raw[k] == (e.0.key(), e.1.key());
                    assert(v[k].0.key() == e.0.key() && v[k].1.key() == e.1.key());
                    assert(v@[k] == e);
                }
                if v@.contains(e) {
                    let k = choose|k: int| 0 <= k < v.len() && v[k] == e;
                    assert(raw@.to_set().contains(raw[k]));
                }
            }
            assert(v@.to_set() =~= self.edges().dom());
            assert forall|i: int, j: int| 0 <= i < j < v.len() implies v[i] != v[j] by {
                assert(raw[i] != raw[j]);
            }
        }
        v
    }

    /// The types of the edge from `a` to `b`; none if there is no such
    /// edge.
    pub open spec fn types(&self, a: Node, b: Node) -> Set<EdgeType> {
        if self.has_edge(a, b) {
            self.edges()[(a, b)].types()
        } else {
            Set::empty()
        }
    }

    /// Adds the types of `w` to the edge from `a` to `b`, which is made if
    /// it is not there.
    pub fn add_weighted_edge(&mut self, gli: &GlobalLocationInterner, a: Node, b: Node, w: Edge)
        requires
            old(self).wf(),
            gli.wf(),
            old(self).valid(gli),
            a.valid(gli),
            b.valid(gli),
        ensures
            final(self).wf(),
            final(self).valid(gli),
            final(self).nodes() == old(self).nodes().insert(a).insert(b),
            final(self).edges().dom() == old(self).edges().dom().insert((a, b)),
            forall|x: Node, y: Node|
                (x, y) != (a, b) ==> #[trigger] final(self).types(x, y) == old(self).types(x, y),
            final(self).types(a, b) == old(self).types(a, b).union(w.types()),
            final(self).flows(gli) == old(self).flows(gli).union(
                edge_flows(a.view(gli), b.view(gli), w.types()),
            ),
            final(self).node_views(gli) == old(self).node_views(gli).insert(a.view(gli)).insert(
                b.view(gli),
            ),
            old(self).no_empty_edges() && (w.types() != Set::<EdgeType>::empty() || old(
                self,
            ).has_edge(a, b)) ==> final(self).no_empty_edges(),
    {
        let mut weight = match self.edge_weight(a, b) {
            Some(p) => p,
            None => Edge::empty(),
        };
        weight.merge(w);
        self.add_edge(a, b, weight);
        proof {
            assert(self.edges().dom() =~= old(self).edges().dom().insert((a, b)));
            assert forall|x: Node, y: Node| (x, y) != (a, b) implies #[trigger] self.types(x, y)
                == old(self).types(x, y) by {}
            assert forall|f: FlowView|
                self.flows(gli).contains(f) == old(self).flows(gli).union(
                    edge_flows(a.view(gli), b.view(gli), w.types()),
                ).contains(f) by {
                a.lemma_find_view(gli);
                b.lemma_find_view(gli);
                if Node::find(gli, f.0) is Some && Node::find(gli, f.1) is Some {
                    Node::lemma_found(gli, f.0);
                    Node::lemma_found(gli, f.1);
                    let x = Node::find(gli, f.0)->0;
                    let y = Node::find(gli, f.1)->0;
                    assert(self.types(x, y).contains(f.2) == self.has_flow(x, y, f.2));
                    assert(old(self).types(x, y).contains(f.2) == old(self).has_flow(x, y, f.2));
                }
            }
            assert(self.flows(gli) =~= old(self).flows(gli).union(
                edge_flows(a.view(gli), b.view(gli), w.types()),
            ));
            assert forall|v: NodeView|
                self.node_views(gli).contains(v) == old(self).node_views(gli).insert(
                    a.view(gli),
                ).insert(b.view(gli)).contains(v) by {
                a.lemma_find_view(gli);
                b.lemma_find_view(gli);
                if Node::find(gli, v) is Some {
                    Node::lemma_found(gli, v);
                }
            }
            assert(self.node_views(gli) =~= old(self).node_views(gli).insert(
                a.view(gli),
            ).insert(b.view(gli)));
            if old(self).no_empty_edges() && (w.types() != Set::<EdgeType>::empty() || old(
                self,
            ).has_edge(a, b)) {
                assert forall|x: Node, y: Node| #[trigger] self.has_edge(x, y) implies self.edges()[(
                    x,
                    y,
                )].types() != Set::<EdgeType>::empty() by {
                    if (x, y) == (a, b) {
                        if old(self).has_edge(a, b) {
                            assert(old(self).edges()[(a, b)].types() != Set::<EdgeType>::empty());
                            assert(!(old(self).edges()[(a, b)].types() =~= Set::<
                                EdgeType,
                            >::empty()));
                            let t = choose|t: EdgeType|
                                old(self).edges()[(a, b)].types().contains(t);
                            assert(self.edges()[(a, b)].types().contains(t));
                        } else {
                            assert(!(w.types() =~= Set::<EdgeType>::empty()));
                            let t = choose|t: EdgeType| w.types().contains(t);
                            assert(self.edges()[(a, b)].types().contains(t));
                        }
                    } else {
                        assert(old(self).has_edge(x, y));
                    }
                }
            }
        }
    }

    /// Makes `n` a node of the graph, and says what that does to the
    /// written-out nodes and flows.
    pub fn add_node_at(&mut self, gli: &GlobalLocationInterner, n: Node)
        requires
            old(self).wf(),
            gli.wf(),
            old(self).valid(gli),
            n.valid(gli),
        ensures
            final(self).wf(),
            final(self).valid(gli),
            old(self).no_empty_edges() ==> final(self).no_empty_edges(),
            final(self).nodes() == old(self).nodes().insert(n),
            final(self).edges() == old(self).edges(),
            final(self).node_views(gli) == old(self).node_views(gli).insert(n.view(gli)),
            final(self).flows(gli) == old(self).flows(gli),
    {
        self.add_node(n);
        proof {
            n.lemma_find_view(gli);
            assert forall|v: NodeView|
                self.node_views(gli).contains(v) == old(self).node_views(gli).insert(
                    n.view(gli),
                ).contains(v) by {
                if Node::find(gli, v) is Some {
                    Node::lemma_found(gli, v);
                }
            }
            assert(self.node_views(gli) =~= old(self).node_views(gli).insert(n.view(gli)));
            assert(self.flows(gli) =~= old(self).flows(gli));
            if old(self).no_empty_edges() {
                assert forall|x: Node, y: Node| #[trigger] self.has_edge(x, y) implies self.edges()[(
                    x,
                    y,
                )].types() != Set::<EdgeType>::empty() by {
                    assert(old(self).has_edge(x, y));
                }
            }
        }
    }

    /// The source and the weight of every edge to `n`, each edge once.
    pub fn incoming_at(&self, gli: &GlobalLocationInterner, n: Node) -> (v: Vec<(Node, Edge)>)
        requires
            self.wf(),
            gli.wf(),
            self.valid(gli),
            self.no_empty_edges(),
            n.valid(gli),
        ensures
            sources_listed(gli, self.flows(gli), n.view(gli), v@),
            forall|i: int| 0 <= i < v.len() ==> self.has_edge((#[trigger] v[i]).0, n),
            forall|i: int, j: int|
                0 <= i < j < v.len() ==> (#[trigger] v[i]).0 != (#[trigger] v[j]).0,
    {
        let v = self.incoming(n);
        proof {
            n.lemma_find_view(gli);
            assert forall|k: int| 0 <= k < v.len() implies (#[trigger] v[k]).0.valid(gli)
                && v[k].1.types() != Set::<EdgeType>::empty() by {
                self.lemma_endpoints(v[k].0, n);
            }
            assert forall|k: int, ty: EdgeType|
                0 <= k < v.len() && (#[trigger] v[k]).1.types().contains(ty) implies #[trigger]
                self.flows(gli).contains((v[k].0.view(gli), n.view(gli), ty)) by {
                self.lemma_endpoints(v[k].0, n);
                self.lemma_flow_view(gli, v[k].0, n, ty);
            }
            assert forall|x: NodeView, ty: EdgeType| #[trigger]
                self.flows(gli).contains((x, n.view(gli), ty)) implies exists|k: int|
                0 <= k < v.len() && (#[trigger] v[k]).0.view(gli) == x && v[k].1.types().contains(
                    ty,
                ) by {
                Node::lemma_found(gli, x);
                let a = Node::find(gli, x)->0;
                assert(self.has_edge(a, n));
                let k = choose|k: int| 0 <= k < v.len() && (#[trigger] v[k]).0 == a;
                assert(v[k].0.view(gli) == x);
            }
        }
        v
    }

    /// The target and the weight of every edge from `n`, each edge once.
    pub fn outgoing_at(&self, gli: &GlobalLocationInterner, n: Node) -> (v: Vec<(Node, Edge)>)
        requires
            self.wf(),
            gli.wf(),
            self.valid(gli),
            self.no_empty_edges(),
            n.valid(gli),
        ensures
            targets_listed(gli, self.flows(gli), n.view(gli), v@),
            forall|i: int| 0 <= i < v.len() ==> self.has_edge(n, (#[trigger] v[i]).0),
            forall|i: int, j: int|
                0 <= i < j < v.len() ==> (#[trigger] v[i]).0 != (#[trigger] v[j]).0,
    {
        let v = self.outgoing(n);
        proof {
            n.lemma_find_view(gli);
            assert forall|k: int| 0 <= k < v.len() implies (#[trigger] v[k]).0.valid(gli)
                && v[k].1.types() != Set::<EdgeType>::empty() by {
                self.lemma_endpoints(n, v[k].0);
            }
            assert forall|k: int, ty: EdgeType|
                0 <= k < v.len() && (#[trigger] v[k]).1.types().contains(ty) implies #[trigger]
                self.flows(gli).contains((n.view(gli), v[k].0.view(gli), ty)) by {
                self.lemma_endpoints(n, v[k].0);
                self.lemma_flow_view(gli, n, v[k].0, ty);
            }
            assert forall|y: NodeView, ty: EdgeType| #[trigger]
                self.flows(gli).contains((n.view(gli), y, ty)) implies exists|k: int|
                0 <= k < v.len() && (#[trigger] v[k]).0.view(gli) == y && v[k].1.types().contains(
                    ty,
                ) by {
                Node::lemma_found(gli, y);
                let b = Node::find(gli, y)->0;
                assert(self.has_edge(n, b));
                let k = choose|k: int| 0 <= k < v.len() && (#[trigger] v[k]).0 == b;
                assert(v[k].0.view(gli) == y);
            }
        }
        v
    }

    /// Leaves to the edge from `a` to `b` only the types of `w`, which are
    /// among those it has, and removes the edge if none is left.
    pub fn set_weight_at(&mut self, gli: &GlobalLocationInterner, a: Node, b: Node, w: Edge)
        requires
            old(self).wf(),
            gli.wf(),
            old(self).valid(gli),
            old(self).no_empty_edges(),
            old(self).has_edge(a, b),
            w.types().subset_of(old(self).edges()[(a, b)].types()),
        ensures
            final(self).wf(),
            final(self).valid(gli),
            final(self).no_empty_edges(),
            final(self).nodes() == old(self).nodes(),
            final(self).node_views(gli) == old(self).node_views(gli),
            final(self).flows(gli) == old(self).flows(gli).filter(
                |f: FlowView| (f.0 == a.view(gli) && f.1 == b.view(gli)) ==> w.types().contains(f.2),
            ),
    {
        proof {
            self.lemma_endpoints(a, b);
            a.lemma_find_view(gli);
            b.lemma_find_view(gli);
        }
        if w.is_empty() {
            self.remove_edge(a, b);
        } else {
            self.add_edge(a, b, w);
            proof {
                assert(self.nodes() =~= old(self).nodes());
            }
        }
        proof {
            assert(self.node_views(gli) =~= old(self).node_views(gli));
            assert forall|f: FlowView|
                self.flows(gli).contains(f) == old(self).flows(gli).filter(
                    |f: FlowView| (f.0 == a.view(gli) && f.1 == b.view(gli)) ==> w.types().contains(f.2),
                ).contains(f) by {
                if Node::find(gli, f.0) is Some && Node::find(gli, f.1) is Some {
                    Node::lemma_found(gli, f.0);
                    Node::lemma_found(gli, f.1);
                    let x = Node::find(gli, f.0)->0;
                    let y = Node::find(gli, f.1)->0;
                    if old(self).has_edge(x, y) {
                        old(self).lemma_endpoints(x, y);
                        x.lemma_view_injective(a, gli);
                        y.lemma_view_injective(b, gli);
                    }
                }
            }
            assert(self.flows(gli) =~= old(self).flows(gli).filter(
                |f: FlowView| (f.0 == a.view(gli) && f.1 == b.view(gli)) ==> w.types().contains(f.2),
            ));
            assert forall|x: Node, y: Node| #[trigger] self.has_edge(x, y) implies self.edges()[(
                x,
                y,
            )].types() != Set::<EdgeType>::empty() by {
                if (x, y) != (a, b) {
                    assert(old(self).has_edge(x, y));
                }
            }
        }
    }

    /// Removes `n` and every edge from or to it, and says what that does to
    /// the written-out nodes and flows.
    pub fn remove_node_at(&mut self, gli: &GlobalLocationInterner, n: Node)
        requires
            old(self).wf(),
            gli.wf(),
            old(self).valid(gli),
            n.valid(gli),
        ensures
            final(self).wf(),
            final(self).valid(gli),
            old(self).no_empty_edges() ==> final(self).no_empty_edges(),
            final(self).nodes() == old(self).nodes().remove(n),
            final(self).node_views(gli) == old(self).node_views(gli).remove(n.view(gli)),
            final(self).flows(gli) == old(self).flows(gli).filter(
                |f: FlowView| f.0 != n.view(gli) && f.1 != n.view(gli),
            ),
    {
        self.remove_node(n);
        proof {
            n.lemma_find_view(gli);
            assert forall|v: NodeView|
                self.node_views(gli).contains(v) == old(self).node_views(gli).remove(
                    n.view(gli),
                ).contains(v) by {
                if Node::find(gli, v) is Some {
                    Node::lemma_found(gli, v);
                }
            }
            assert(self.node_views(gli) =~= old(self).node_views(gli).remove(n.view(gli)));
            assert forall|f: FlowView|
                self.flows(gli).contains(f) == old(self).flows(gli).filter(
                    |f: FlowView| f.0 != n.view(gli) && f.1 != n.view(gli),
                ).contains(f) by {
                if Node::find(gli, f.0) is Some && Node::find(gli, f.1) is Some {
                    Node::lemma_found(gli, f.0);
                    Node::lemma_found(gli, f.1);
                }
            }
            assert(self.flows(gli) =~= old(self).flows(gli).filter(
                |f: FlowView| f.0 != n.view(gli) && f.1 != n.view(gli),
            ));
            if old(self).no_empty_edges() {
                assert forall|x: Node, y: Node| #[trigger] self.has_edge(x, y) implies self.edges()[(
                    x,
                    y,
                )].types() != Set::<EdgeType>::empty() by {
                    assert(old(self).has_edge(x, y));
                }
            }
        }
    }

    /// Number of nodes of the graph.
    pub fn node_count(&self) -> (n: usize)
        requires
            self.wf(),
        ensures
            self.nodes().finite(),
            n == self.nodes().len(),
    {
        let nodes = self.node_list();
        proof {
            nodes@.unique_seq_to_set();
        }
        nodes.len()
    }
}

/// What an interner finds, a larger one finds too; and what the larger one
/// finds among the handles of the smaller one, the smaller one finds.
pub proof fn lemma_find_extends(
    gli: &GlobalLocationInterner,
    before: &GlobalLocationInterner,
    v: NodeView,
)
    requires
        gli.wf(),
        before.wf(),
        gli.extends(before),
    ensures
        Node::find(before, v) is Some ==> Node::find(gli, v) == Node::find(before, v),
{
    match v {
        NodeView::Call(c, _) => {
            if before.find(c) is Some {
                gli.lemma_extends_find(before, c);
            }
        },
        _ => {},
    }
}

} // verus!
