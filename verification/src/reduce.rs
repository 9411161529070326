//! Taking a call node out of a graph while keeping what flowed through it.

use crate::edge::{Edge, EdgeType};
use crate::global_location::GlobalLocationInterner;
use crate::graph::{edge_flows, sources_listed, targets_listed, FlowView, FlowGraph, Node, NodeView};
use vstd::prelude::*;

verus! {

/// Whether a flow into the node passes through it when the node is taken
/// out: every flow does, or only those of one type.
pub open spec fn passes(only: Option<EdgeType>, ty: EdgeType) -> bool {
    match only {
        Some(t) => ty == t,
        None => true,
    }
}

/// Whether `x` feeds the node `n` in a way that passes through it.
pub open spec fn feeds(flows: Set<FlowView>, n: NodeView, only: Option<EdgeType>, x: NodeView) -> bool {
    exists|ty: EdgeType| #[trigger] flows.contains((x, n, ty)) && passes(only, ty)
}

/// The flows of a graph once the node `n` is taken out: every node that
/// fed `n` now feeds what `n` fed, in the ways in which `n` fed it; the flows
/// from and to `n` are gone.
pub open spec fn bypassed(flows: Set<FlowView>, n: NodeView, only: Option<EdgeType>) -> Set<FlowView> {
    Set::new(
        |f: FlowView|
            (flows.contains(f) || (feeds(flows, n, only, f.0) && flows.contains((n, f.1, f.2))))
                && f.0 != n && f.1 != n,
    )
}

/// The flows from the first `i` listed sources that pass, to every target.
pub open spec fn bypassed_below(
    gli: &GlobalLocationInterner,
    flows: Set<FlowView>,
    n: NodeView,
    only: Option<EdgeType>,
    incoming: Seq<(Node, Edge)>,
    i: int,
) -> Set<FlowView> {
    Set::new(
        |f: FlowView|
            flows.contains((n, f.1, f.2)) && exists|k: int|
                0 <= k < i && (#[trigger] incoming[k]).0.view(gli) == f.0 && exists|ty: EdgeType|
                    incoming[k].1.types().contains(ty) && passes(only, ty),
    )
}

/// The flows from one source to the first `j` listed targets.
pub open spec fn forwarded_below(
    gli: &GlobalLocationInterner,
    x: NodeView,
    outgoing: Seq<(Node, Edge)>,
    j: int,
) -> Set<FlowView> {
    Set::new(
        |f: FlowView|
            f.0 == x && exists|k: int|
                0 <= k < j && (#[trigger] outgoing[k]).0.view(gli) == f.1
                    && outgoing[k].1.types().contains(f.2),
    )
}

/// Whether the weight has a type that passes.
fn weight_passes(w: Edge, only: Option<EdgeType>) -> (r: bool)
    ensures
        r == exists|ty: EdgeType| w.types().contains(ty) && passes(only, ty),
{
    match only {
        Some(t) => {
            let r = w.has_type(t);
            proof {
                if r {
                    assert(w.types().contains(t) && passes(only, t));
                }
            }
            r
        },
        None => {
            let e = w.is_empty();
            proof {
                if !e {
                    assert(!(w.types() =~= Set::<EdgeType>::empty()));
                    let ty = choose|ty: EdgeType| w.types().contains(ty);
                    assert(w.types().contains(ty) && passes(only, ty));
                }
            }
            !e
        },
    }
}

/// Connects one source to every listed target.
fn forward(
    g: &mut FlowGraph,
    gli: &GlobalLocationInterner,
    from: Node,
    outgoing: &Vec<(Node, Edge)>,
    Ghost(flows): Ghost<Set<FlowView>>,
    Ghost(n): Ghost<NodeView>,
)
    requires
        gli.wf(),
        old(g).wf(),
        old(g).valid(gli),
        old(g).no_empty_edges(),
        from.valid(gli),
        targets_listed(gli, flows, n, outgoing@),
    ensures
        final(g).wf(),
        final(g).valid(gli),
        final(g).no_empty_edges(),
        final(g).flows(gli) == old(g).flows(gli).union(
            forwarded_below(gli, from.view(gli), outgoing@, outgoing.len() as int),
        ),
        forall|v: NodeView| #[trigger]
            old(g).node_views(gli).contains(v) ==> final(g).node_views(gli).contains(v),
        forall|v: NodeView| #[trigger]
            final(g).node_views(gli).contains(v) ==> old(g).node_views(gli).contains(v) || v
                == from.view(gli) || exists|ty: EdgeType| flows.contains((n, v, ty)),
{
    let ghost x = from.view(gli);
    let mut j: usize = 0;
    proof {
        assert(forwarded_below(gli, x, outgoing@, 0) =~= Set::<FlowView>::empty());
        assert(g.flows(gli) =~= old(g).flows(gli).union(Set::<FlowView>::empty()));
    }
    while j < outgoing.len()
        invariant
            j <= outgoing.len(),
            gli.wf(),
            g.wf(),
            g.valid(gli),
            g.no_empty_edges(),
            from.valid(gli),
            x == from.view(gli),
            targets_listed(gli, flows, n, outgoing@),
            g.flows(gli) == old(g).flows(gli).union(forwarded_below(gli, x, outgoing@, j as int)),
            forall|v: NodeView| #[trigger]
                old(g).node_views(gli).contains(v) ==> g.node_views(gli).contains(v),
            forall|v: NodeView| #[trigger]
                g.node_views(gli).contains(v) ==> old(g).node_views(gli).contains(v) || v == x
                    || exists|ty: EdgeType| flows.contains((n, v, ty)),
        decreases outgoing.len() - j,
    {
        let to = outgoing[j].0;
        let weight = outgoing[j].1;
        let ghost g_before = *g;
        g.add_weighted_edge(gli, from, to, weight);
        proof {
            let before = forwarded_below(gli, x, outgoing@, j as int);
            let after = forwarded_below(gli, x, outgoing@, j as int + 1);
            let added = edge_flows(x, to.view(gli), weight.types());
            assert(after =~= before.union(added)) by {
                assert forall|f: FlowView| after.contains(f) == before.union(added).contains(f) by {
                    if after.contains(f) {
                        let k = choose|k: int|
                            0 <= k < j + 1 && (#[trigger] outgoing@[k]).0.view(gli) == f.1
                                && outgoing@[k].1.types().contains(f.2);
                        if k < j {
                            assert(before.contains(f));
                        }
                    }
                    if added.contains(f) {
                        assert(outgoing@[j as int].0.view(gli) == f.1);
                    }
                }
            }
            assert(g.flows(gli) =~= old(g).flows(gli).union(after));
            assert(!(weight.types() =~= Set::<EdgeType>::empty()));
            let ty = choose|ty: EdgeType| weight.types().contains(ty);
            assert(flows.contains((n, to.view(gli), ty)));
        }
        j = j + 1;
    }
}

/// Takes the node `n` out of the graph: connects every node that fed `n`,
/// or only those that fed it in one way, to what `n` fed, and removes `n`
/// with the edges from and to it.
pub fn bypass(g: &mut FlowGraph, gli: &GlobalLocationInterner, n: Node, only: Option<EdgeType>)
    requires
        gli.wf(),
        old(g).wf(),
        old(g).valid(gli),
        old(g).no_empty_edges(),
        n.valid(gli),
    ensures
        final(g).wf(),
        final(g).valid(gli),
        final(g).no_empty_edges(),
        final(g).flows(gli) == bypassed(old(g).flows(gli), n.view(gli), only),
        final(g).node_views(gli) == old(g).node_views(gli).remove(n.view(gli)),
{
    let ghost flows = g.flows(gli);
    let ghost nodes = g.node_views(gli);
    let ghost nv = n.view(gli);
    let incoming = g.incoming_at(gli, n);
    let outgoing = g.outgoing_at(gli, n);
    let mut i: usize = 0;
    proof {
        g.lemma_flow_ends(gli);
        assert(bypassed_below(gli, flows, nv, only, incoming@, 0) =~= Set::<FlowView>::empty());
        assert(g.flows(gli) =~= flows.union(Set::<FlowView>::empty()));
    }
    while i < incoming.len()
        invariant
            i <= incoming.len(),
            gli.wf(),
            g.wf(),
            g.valid(gli),
            g.no_empty_edges(),
            nv == n.view(gli),
            sources_listed(gli, flows, nv, incoming@),
            targets_listed(gli, flows, nv, outgoing@),
            g.flows(gli) == flows.union(bypassed_below(gli, flows, nv, only, incoming@, i as int)),
            forall|v: NodeView| #[trigger] nodes.contains(v) ==> g.node_views(gli).contains(v),
            forall|v: NodeView| #[trigger] g.node_views(gli).contains(v) ==> nodes.contains(v),
            forall|f: FlowView| #[trigger] flows.contains(f) ==> nodes.contains(f.0) && nodes.contains(f.1),
        decreases incoming.len() - i,
    {
        let from = incoming[i].0;
        let before = Ghost(bypassed_below(gli, flows, nv, only, incoming@, i as int));
        let after = Ghost(bypassed_below(gli, flows, nv, only, incoming@, i as int + 1));
        if weight_passes(incoming[i].1, only) {
            forward(g, gli, from, &outgoing, Ghost(flows), Ghost(nv));
            proof {
                let added = forwarded_below(gli, from.view(gli), outgoing@, outgoing.len() as int);
                assert(after@ =~= before@.union(added)) by {
                    assert forall|f: FlowView| after@.contains(f) == before@.union(added).contains(
                        f,
                    ) by {
                        if after@.contains(f) {
                            let k = choose|k: int|
                                0 <= k < i + 1 && (#[trigger] incoming@[k]).0.view(gli) == f.0
                                    && exists|ty: EdgeType|
                                    incoming@[k].1.types().contains(ty) && passes(only, ty);
                            if k < i {
                                assert(before@.contains(f));
                            } else {
                                assert(flows.contains((nv, f.1, f.2)));
                            }
                        }
                        if added.contains(f) {
                            let k = choose|k: int|
                                0 <= k < outgoing.len() && (#[trigger] outgoing@[k]).0.view(gli)
                                    == f.1 && outgoing@[k].1.types().contains(f.2);
                            assert(flows.contains((nv, outgoing@[k].0.view(gli), f.2)));
                            assert(incoming@[i as int].0.view(gli) == f.0);
                        }
                    }
                }
                assert(g.flows(gli) =~= flows.union(after@));
                assert(!(incoming@[i as int].1.types() =~= Set::<EdgeType>::empty()));
                let ty = choose|ty: EdgeType| incoming@[i as int].1.types().contains(ty);
                assert(flows.contains((from.view(gli), nv, ty)));
                assert forall|v: NodeView| #[trigger] g.node_views(gli).contains(v) implies nodes.contains(
                    v,
                ) by {
                    if v != from.view(gli) && exists|ty: EdgeType| flows.contains((nv, v, ty)) {
                        let ty = choose|ty: EdgeType| flows.contains((nv, v, ty));
                        assert(flows.contains((nv, v, ty)));
                    }
                }
            }
        } else {
            proof {
                assert(after@ =~= before@) by {
                    assert forall|f: FlowView| after@.contains(f) == before@.contains(f) by {
                        if after@.contains(f) {
                            let k = choose|k: int|
                                0 <= k < i + 1 && (#[trigger] incoming@[k]).0.view(gli) == f.0
                                    && exists|ty: EdgeType|
                                    incoming@[k].1.types().contains(ty) && passes(only, ty);
                            assert(k < i);
                        }
                    }
                }
            }
        }
        i = i + 1;
    }
    g.remove_node_at(gli, n);
    proof {
        let all = bypassed_below(gli, flows, nv, only, incoming@, incoming.len() as int);
        assert forall|f: FlowView|
            all.contains(f) == (feeds(flows, nv, only, f.0) && flows.contains((nv, f.1, f.2))) by {
            if all.contains(f) {
                let k = choose|k: int|
                    0 <= k < incoming.len() && (#[trigger] incoming@[k]).0.view(gli) == f.0
                        && exists|ty: EdgeType|
                        incoming@[k].1.types().contains(ty) && passes(only, ty);
                let ty = choose|ty: EdgeType|
                    incoming@[k].1.types().contains(ty) && passes(only, ty);
                assert(flows.contains((incoming@[k].0.view(gli), nv, ty)));
            }
            if feeds(flows, nv, only, f.0) && flows.contains((nv, f.1, f.2)) {
                let ty = choose|ty: EdgeType| #[trigger]
                    flows.contains((f.0, nv, ty)) && passes(only, ty);
                let k = choose|k: int|
                    0 <= k < incoming.len() && (#[trigger] incoming@[k]).0.view(gli) == f.0
                        && incoming@[k].1.types().contains(ty);
                assert(incoming@[k].1.types().contains(ty) && passes(only, ty));
            }
        }
        assert(g.flows(gli) =~= bypassed(flows, nv, only));
        assert(g.node_views(gli) =~= nodes.remove(nv));
    }
}

} // verus!
