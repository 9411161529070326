//! How large a graph is.

use crate::edge::EdgeType;
use crate::global_location::GlobalLocationInterner;
use crate::graph::{edge_flows, FlowView, FlowGraph, Node, NodeView};
use crate::inline::InlinedGraph;
use crate::inliner::saturating_add;
use vstd::prelude::*;
use vstd::set_lib::{lemma_map_size, lemma_set_disjoint_lens};

verus! {

/// The count, or the largest number that fits where the count does not.
pub open spec fn saturated(n: nat) -> usize {
    if n > usize::MAX {
        usize::MAX
    } else {
        n as usize
    }
}

/// The written-out flows of the first `k` edges of the list.
pub open spec fn flows_of(
    g: &FlowGraph,
    gli: &GlobalLocationInterner,
    edges: Seq<(Node, Node)>,
    k: int,
) -> Set<FlowView> {
    Set::new(
        |f: FlowView|
            exists|j: int|
                0 <= j < k && f.0 == (#[trigger] edges[j]).0.view(gli) && f.1 == edges[j].1.view(
                    gli,
                ) && g.edges()[edges[j]].types().contains(f.2),
    )
}

/// There are as many flows between two nodes as the edge has types.
proof fn lemma_edge_flows_len(x: NodeView, y: NodeView, types: Set<EdgeType>)
    requires
        types.finite(),
    ensures
        edge_flows(x, y, types).finite(),
        edge_flows(x, y, types).len() == types.len(),
{
    let f = |t: EdgeType| (x, y, t);
    assert(types.map(f) =~= edge_flows(x, y, types)) by {
        assert forall|fl: FlowView| edge_flows(x, y, types).contains(fl) implies types.map(f).contains(
            fl,
        ) by {
            assert(types.contains(fl.2) && f(fl.2) == fl);
        }
    }
    assert(vstd::relations::injective_on(f, types));
    lemma_map_size(types, edge_flows(x, y, types), f);
}

/// The flows of one more edge are those of the edges before it and its own,
/// which are not among those before it.
proof fn lemma_flows_of_step(
    g: &FlowGraph,
    gli: &GlobalLocationInterner,
    edges: Seq<(Node, Node)>,
    k: int,
)
    requires
        gli.wf(),
        g.wf(),
        g.valid(gli),
        edges.no_duplicates(),
        edges.to_set() == g.edges().dom(),
        0 <= k < edges.len(),
    ensures
        flows_of(g, gli, edges, k + 1) == flows_of(g, gli, edges, k).union(
            edge_flows(edges[k].0.view(gli), edges[k].1.view(gli), g.edges()[edges[k]].types()),
        ),
        flows_of(g, gli, edges, k).disjoint(
            edge_flows(edges[k].0.view(gli), edges[k].1.view(gli), g.edges()[edges[k]].types()),
        ),
{
    let own = edge_flows(edges[k].0.view(gli), edges[k].1.view(gli), g.edges()[edges[k]].types());
    assert forall|j: int| 0 <= j < edges.len() implies (#[trigger] edges[j]).0.valid(gli)
        && edges[j].1.valid(gli) by {
        assert(edges.to_set().contains(edges[j]));
        g.lemma_endpoints(edges[j].0, edges[j].1);
    }
    assert forall|f: FlowView| flows_of(g, gli, edges, k + 1).contains(f) == flows_of(
        g,
        gli,
        edges,
        k,
    ).union(own).contains(f) by {
        if flows_of(g, gli, edges, k + 1).contains(f) {
            let j = choose|j: int|
                0 <= j < k + 1 && f.0 == (#[trigger] edges[j]).0.view(gli) && f.1
                    == edges[j].1.view(gli) && g.edges()[edges[j]].types().contains(f.2);
            if j < k {
                assert(flows_of(g, gli, edges, k).contains(f));
            }
        }
        if flows_of(g, gli, edges, k).contains(f) {
            let j = choose|j: int|
                0 <= j < k && f.0 == (#[trigger] edges[j]).0.view(gli) && f.1 == edges[j].1.view(
                    gli,
                ) && g.edges()[edges[j]].types().contains(f.2);
            assert(0 <= j < k + 1);
        }
        if own.contains(f) {
            assert(f.0 == edges[k].0.view(gli));
        }
    }
    assert(flows_of(g, gli, edges, k + 1) =~= flows_of(g, gli, edges, k).union(own));
    assert forall|f: FlowView| flows_of(g, gli, edges, k).contains(f) implies !own.contains(f) by {
        let j = choose|j: int|
            0 <= j < k && f.0 == (#[trigger] edges[j]).0.view(gli) && f.1 == edges[j].1.view(gli)
                && g.edges()[edges[j]].types().contains(f.2);
        if own.contains(f) {
            edges[j].0.lemma_view_injective(edges[k].0, gli);
            edges[j].1.lemma_view_injective(edges[k].1, gli);
            assert(edges[j] == edges[k]);
        }
    }
}

/// The flows of all the edges are the flows of the graph.
proof fn lemma_flows_of_all(g: &FlowGraph, gli: &GlobalLocationInterner, edges: Seq<(Node, Node)>)
    requires
        gli.wf(),
        g.wf(),
        g.valid(gli),
        edges.to_set() == g.edges().dom(),
    ensures
        flows_of(g, gli, edges, edges.len() as int) == g.flows(gli),
{
    assert forall|f: FlowView| flows_of(g, gli, edges, edges.len() as int).contains(f) == g.flows(
        gli,
    ).contains(f) by {
        if flows_of(g, gli, edges, edges.len() as int).contains(f) {
            let j = choose|j: int|
                0 <= j < edges.len() && f.0 == (#[trigger] edges[j]).0.view(gli) && f.1
                    == edges[j].1.view(gli) && g.edges()[edges[j]].types().contains(f.2);
            assert(edges.to_set().contains(edges[j]));
            g.lemma_endpoints(edges[j].0, edges[j].1);
            g.lemma_flow_view(gli, edges[j].0, edges[j].1, f.2);
        }
        if g.flows(gli).contains(f) {
            let a = Node::find(gli, f.0)->0;
            let b = Node::find(gli, f.1)->0;
            Node::lemma_found(gli, f.0);
            Node::lemma_found(gli, f.1);
            assert(edges.to_set().contains((a, b)));
            let j = choose|j: int| 0 <= j < edges.len() && edges[j] == (a, b);
            assert(f.0 == edges[j].0.view(gli));
        }
    }
    assert(flows_of(g, gli, edges, edges.len() as int) =~= g.flows(gli));
}

impl InlinedGraph {
    /// Number of nodes of the graph.
    pub fn vertex_count(&self, gli: &GlobalLocationInterner) -> (n: usize)
        requires
            gli.wf(),
            self.wf(gli),
        ensures
            self.view(gli).graph.nodes.finite(),
            n == self.view(gli).graph.nodes.len(),
    {
        let n = self.graph.node_count();
        proof {
            let f = |a: Node| a.view(gli);
            let nodes = self.graph.nodes();
            assert(vstd::relations::injective_on(f, nodes)) by {
                assert forall|a: Node, b: Node|
                    nodes.contains(a) && nodes.contains(b) && #[trigger] f(a) == #[trigger] f(
                        b,
                    ) implies a == b by {
                    a.lemma_view_injective(b, gli);
                }
            }
            assert(nodes.map(f) =~= self.graph.node_views(gli)) by {
                assert forall|v: NodeView| nodes.map(f).contains(v) == self.graph.node_views(
                    gli,
                ).contains(v) by {
                    if nodes.map(f).contains(v) {
                        let a = choose|a: Node| nodes.contains(a) && f(a) == v;
                        a.lemma_find_view(gli);
                    }
                    if self.graph.node_views(gli).contains(v) {
                        Node::lemma_found(gli, v);
                        let a = Node::find(gli, v)->0;
                        assert(nodes.contains(a) && f(a) == v);
                    }
                }
            }
            lemma_map_size(nodes, self.graph.node_views(gli), f);
        }
        n
    }

    /// Number of flows of the graph: the types of all its edges together. A
    /// number too large for the result is given as the largest that fits.
    pub fn edge_count(&self, gli: &GlobalLocationInterner) -> (n: usize)
        requires
            gli.wf(),
            self.wf(gli),
        ensures
            self.view(gli).graph.flows.finite(),
            n == saturated(self.view(gli).graph.flows.len()),
    {
        let edges = self.graph.all_edges();
        let mut n: usize = 0;
        let mut k: usize = 0;
        proof {
            assert(flows_of(&self.graph, gli, edges@, 0) =~= Set::<FlowView>::empty());
        }
        while k < edges.len()
            invariant
                k <= edges.len(),
                gli.wf(),
                self.wf(gli),
                edges@.no_duplicates(),
                edges@.to_set() == self.graph.edges().dom(),
                flows_of(&self.graph, gli, edges@, k as int).finite(),
                n == saturated(flows_of(&self.graph, gli, edges@, k as int).len()),
            decreases edges.len() - k,
        {
            proof {
                assert(edges@.to_set().contains(edges[k as int]));
            }
            match self.graph.edge_weight(edges[k].0, edges[k].1) {
                Some(w) => {
                    let c = w.count();
                    proof {
                        let own = edge_flows(
                            edges[k as int].0.view(gli),
                            edges[k as int].1.view(gli),
                            w.types(),
                        );
                        lemma_edge_flows_len(
                            edges[k as int].0.view(gli),
                            edges[k as int].1.view(gli),
                            w.types(),
                        );
                        lemma_flows_of_step(&self.graph, gli, edges@, k as int);
                        lemma_set_disjoint_lens(flows_of(&self.graph, gli, edges@, k as int), own);
                    }
                    n = saturating_add(n, c as usize);
                },
                None => {},
            }
            k = k + 1;
        }
        proof {
            lemma_flows_of_all(&self.graph, gli, edges@);
        }
        n
    }
}

} // verus!
