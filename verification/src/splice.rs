//! Replacing a call node by the graph of the called procedure.
//!
//! The nodes of the callee's graph are nested under the call site. What fed
//! an argument of the call now feeds whatever the callee's formal argument
//! fed, and whatever fed the callee's return value, or one of its formal
//! arguments, now feeds what the call fed.

use crate::edge::{Edge, EdgeType};
use crate::global_location::{GliAt, GlobalLocationInterner, Link};
use crate::graph::{
    edge_flows, sources_listed, targets_listed, FlowView, FlowGraph, Node, NodeView,
};
use vstd::prelude::*;

verus! {

/// A pair of nodes: the two ends of an edge.
pub type Ends = (NodeView, NodeView);

/// The node nested under the call site.
pub open spec fn relativized(site: Link, v: NodeView) -> NodeView {
    match v {
        NodeView::Call(c, d) => NodeView::Call(seq![site] + c, d),
        _ => v,
    }
}

/// Whether the node `x` of the caller takes the place of the node `s` of
/// the callee as a source, when the callee is inlined at the call `t`. A
/// call of the callee is replaced by itself, nested under the call site; a
/// formal argument by every node that feeds the argument of `t`; the return
/// node by nothing.
pub open spec fn stands_for(
    caller: Set<FlowView>,
    site: Link,
    t: NodeView,
    s: NodeView,
    x: NodeView,
) -> bool {
    match s {
        NodeView::Call(_, _) => x == relativized(site, s),
        NodeView::Argument(a) => caller.contains((x, t, EdgeType::Data(a))),
        NodeView::Return => false,
    }
}

/// The flows from every node that stands for `s` to `target`, in each of
/// the given ways.
pub open spec fn connected(
    caller: Set<FlowView>,
    site: Link,
    t: NodeView,
    s: NodeView,
    target: NodeView,
    types: Set<EdgeType>,
) -> Set<FlowView> {
    Set::new(|f: FlowView| stands_for(caller, site, t, s, f.0) && f.1 == target && types.contains(f.2))
}

/// The flows that take the place of one edge of the callee, from `s` to
/// `d`. An edge to a call of the callee keeps its types. An edge to the
/// return node or to a formal argument is continued by every flow that
/// leaves the call `t`.
pub open spec fn contribution(
    caller: Set<FlowView>,
    site: Link,
    t: NodeView,
    s: NodeView,
    d: NodeView,
    types: Set<EdgeType>,
) -> Set<FlowView> {
    Set::new(
        |f: FlowView|
            stands_for(caller, site, t, s, f.0) && if d is Call {
                f.1 == relativized(site, d) && types.contains(f.2)
            } else {
                caller.contains((t, f.1, f.2))
            },
    )
}

/// Whether the flows that take the place of the edge from `s` to `d` cross
/// the boundary of the callee, and so have to be checked against the place
/// equations.
pub open spec fn crosses(s: NodeView, d: NodeView) -> bool {
    !(d is Call) || s is Argument
}

/// The ends of the flows.
pub open spec fn ends(flows: Set<FlowView>) -> Set<Ends> {
    Set::new(|e: Ends| exists|ty: EdgeType| flows.contains((e.0, e.1, ty)))
}

/// The ends that the vector lists, written out.
pub open spec fn listed_ends(gli: &GlobalLocationInterner, q: Seq<(Node, Node)>) -> Set<Ends> {
    Set::new(
        |e: Ends|
            exists|k: int|
                0 <= k < q.len() && e == ((#[trigger] q[k]).0.view(gli), q[k].1.view(gli)),
    )
}

/// Whether every node that the vector lists is valid for the interner.
pub open spec fn ends_valid(gli: &GlobalLocationInterner, q: Seq<(Node, Node)>) -> bool {
    forall|k: int| 0 <= k < q.len() ==> (#[trigger] q[k]).0.valid(gli) && q[k].1.valid(gli)
}

/// The ends that a vector lists stay the same when the interner grows.
pub proof fn lemma_listed_extends(
    gli: &GlobalLocationInterner,
    before: &GlobalLocationInterner,
    q: Seq<(Node, Node)>,
)
    requires
        gli.extends(before),
        ends_valid(before, q),
    ensures
        ends_valid(gli, q),
        listed_ends(gli, q) == listed_ends(before, q),
{
    assert forall|k: int| 0 <= k < q.len() implies (#[trigger] q[k]).0.valid(gli) && q[k].1.valid(
        gli,
    ) && q[k].0.view(gli) == q[k].0.view(before) && q[k].1.view(gli) == q[k].1.view(before) by {
        q[k].0.lemma_extends_view(gli, before);
        q[k].1.lemma_extends_view(gli, before);
    }
    assert forall|e: Ends| listed_ends(gli, q).contains(e) == listed_ends(before, q).contains(
        e,
    ) by {
        if listed_ends(gli, q).contains(e) {
            let k = choose|k: int|
                0 <= k < q.len() && e == ((#[trigger] q[k]).0.view(gli), q[k].1.view(gli));
            assert(e == (q[k].0.view(before), q[k].1.view(before)));
        }
        if listed_ends(before, q).contains(e) {
            let k = choose|k: int|
                0 <= k < q.len() && e == ((#[trigger] q[k]).0.view(before), q[k].1.view(before));
            assert(e == (q[k].0.view(gli), q[k].1.view(gli)));
        }
    }
    assert(listed_ends(gli, q) =~= listed_ends(before, q));
}

/// The flows to `target` from the first `n` listed sources that feed the
/// argument at position `a`.
pub open spec fn connected_below(
    gli: &GlobalLocationInterner,
    incoming: Seq<(Node, Edge)>,
    a: u32,
    target: NodeView,
    types: Set<EdgeType>,
    n: int,
) -> Set<FlowView> {
    Set::new(
        |f: FlowView|
            exists|k: int|
                0 <= k < n && (#[trigger] incoming[k]).1.types().contains(EdgeType::Data(a)) && f.0
                    == incoming[k].0.view(gli) && f.1 == target && types.contains(f.2),
    )
}

/// Listing one more pair of ends adds the pair, written out.
pub proof fn lemma_listed_push(gli: &GlobalLocationInterner, q: Seq<(Node, Node)>, e: (Node, Node))
    ensures
        listed_ends(gli, q.push(e)) == listed_ends(gli, q).insert((e.0.view(gli), e.1.view(gli))),
{
    let p = q.push(e);
    assert forall|x: Ends|
        listed_ends(gli, p).contains(x) == listed_ends(gli, q).insert(
            (e.0.view(gli), e.1.view(gli)),
        ).contains(x) by {
        if listed_ends(gli, p).contains(x) {
            let k = choose|k: int|
                0 <= k < p.len() && x == ((#[trigger] p[k]).0.view(gli), p[k].1.view(gli));
            if k < q.len() {
                assert(q[k] == p[k]);
            }
        }
        if listed_ends(gli, q).contains(x) {
            let k = choose|k: int|
                0 <= k < q.len() && x == ((#[trigger] q[k]).0.view(gli), q[k].1.view(gli));
            assert(p[k] == q[k]);
        }
        if x == (e.0.view(gli), e.1.view(gli)) {
            assert(p[q.len() as int] == e);
        }
    }
    assert(listed_ends(gli, p) =~= listed_ends(gli, q).insert((e.0.view(gli), e.1.view(gli))));
}

/// The ends of the flows of two sets are the ends of the flows of either.
pub proof fn lemma_ends_union(a: Set<FlowView>, b: Set<FlowView>)
    ensures
        ends(a.union(b)) == ends(a).union(ends(b)),
{
    assert forall|e: Ends| ends(a.union(b)).contains(e) == ends(a).union(ends(b)).contains(e) by {
        if ends(a.union(b)).contains(e) {
            let ty = choose|ty: EdgeType| a.union(b).contains((e.0, e.1, ty));
            if a.contains((e.0, e.1, ty)) {
                assert(ends(a).contains(e));
            } else {
                assert(ends(b).contains(e));
            }
        }
        if ends(a).contains(e) {
            let ty = choose|ty: EdgeType| a.contains((e.0, e.1, ty));
            assert(a.union(b).contains((e.0, e.1, ty)));
        }
        if ends(b).contains(e) {
            let ty = choose|ty: EdgeType| b.contains((e.0, e.1, ty));
            assert(a.union(b).contains((e.0, e.1, ty)));
        }
    }
    assert(ends(a.union(b)) =~= ends(a).union(ends(b)));
}

/// The flows of one edge with at least one type have the ends of the edge.
pub proof fn lemma_ends_edge(x: NodeView, y: NodeView, types: Set<EdgeType>)
    requires
        types != Set::<EdgeType>::empty(),
    ensures
        ends(edge_flows(x, y, types)) == set![(x, y)],
{
    assert(!(types =~= Set::<EdgeType>::empty()));
    let ty = choose|ty: EdgeType| types.contains(ty);
    assert(edge_flows(x, y, types).contains((x, y, ty)));
    assert forall|e: Ends| ends(edge_flows(x, y, types)).contains(e) == set![(x, y)].contains(
        e,
    ) by {
        if e == (x, y) {
            assert(edge_flows(x, y, types).contains((e.0, e.1, ty)));
        }
        if ends(edge_flows(x, y, types)).contains(e) {
            let u = choose|u: EdgeType| edge_flows(x, y, types).contains((e.0, e.1, u));
            assert(e.0 == x && e.1 == y);
        }
    }
    assert(ends(edge_flows(x, y, types)) =~= set![(x, y)]);
}

/// No flows have no ends.
pub proof fn lemma_ends_empty()
    ensures
        ends(Set::<FlowView>::empty()) == Set::<Ends>::empty(),
{
    assert(ends(Set::<FlowView>::empty()) =~= Set::<Ends>::empty());
}

/// Connects every node that stands for `source` to `target`: puts in the
/// flows of [`connected`], and lists their ends for pruning if that is
/// required or if `source` is a formal argument.
pub(crate) fn connect_to(
    g: &mut FlowGraph,
    gli: &GlobalLocationInterner,
    queue: &mut Vec<(Node, Node)>,
    incoming: &Vec<(Node, Edge)>,
    source: Node,
    moved: Node,
    target: Node,
    weight: Edge,
    pruning_required: bool,
    Ghost(caller): Ghost<Set<FlowView>>,
    Ghost(site): Ghost<Link>,
    Ghost(t): Ghost<NodeView>,
)
    requires
        gli.wf(),
        old(g).wf(),
        old(g).valid(gli),
        old(g).no_empty_edges(),
        source.valid(gli),
        target.valid(gli),
        weight.types() != Set::<EdgeType>::empty(),
        source is Call ==> moved.valid(gli) && moved.view(gli) == relativized(
            site,
            source.view(gli),
        ),
        sources_listed(gli, caller, t, incoming@),
        ends_valid(gli, old(queue)@),
    ensures
        final(g).wf(),
        final(g).valid(gli),
        final(g).no_empty_edges(),
        ends_valid(gli, final(queue)@),
        final(g).flows(gli) == old(g).flows(gli).union(
            connected(caller, site, t, source.view(gli), target.view(gli), weight.types()),
        ),
        forall|v: NodeView| #[trigger]
            old(g).node_views(gli).contains(v) ==> final(g).node_views(gli).contains(v),
        forall|v: NodeView| #[trigger]
            final(g).node_views(gli).contains(v) ==> old(g).node_views(gli).contains(v) || v
                == target.view(gli) || stands_for(caller, site, t, source.view(gli), v),
        listed_ends(gli, final(queue)@) == listed_ends(gli, old(queue)@).union(
            if pruning_required || source is Argument {
                ends(connected(caller, site, t, source.view(gli), target.view(gli), weight.types()))
            } else {
                Set::empty()
            },
        ),
{
    let ghost all = connected(caller, site, t, source.view(gli), target.view(gli), weight.types());
    match source {
        Node::Call(_, _) => {
            g.add_weighted_edge(gli, moved, target, weight);
            proof {
                assert(all =~= edge_flows(moved.view(gli), target.view(gli), weight.types()));
                lemma_ends_edge(moved.view(gli), target.view(gli), weight.types());
            }
            if pruning_required {
                proof {
                    lemma_listed_push(gli, queue@, (moved, target));
                }
                queue.push((moved, target));
                proof {
                    assert(listed_ends(gli, queue@) =~= listed_ends(gli, old(queue)@).union(
                        ends(all),
                    ));
                }
            } else {
                proof {
                    assert(listed_ends(gli, queue@) =~= listed_ends(gli, old(queue)@).union(
                        Set::empty(),
                    ));
                }
            }
        },
        Node::Return => {
            proof {
                assert(all =~= Set::<FlowView>::empty());
                lemma_ends_empty();
                assert(g.flows(gli) =~= old(g).flows(gli).union(all));
                assert(listed_ends(gli, queue@) =~= listed_ends(gli, old(queue)@).union(
                    Set::empty(),
                ));
            }
        },
        Node::Argument(a) => {
            let ghost tv = target.view(gli);
            let ghost types = weight.types();
            let mut k: usize = 0;
            proof {
                assert(connected_below(gli, incoming@, a, tv, types, 0) =~= Set::<FlowView>::empty());
                lemma_ends_empty();
                assert(g.flows(gli) =~= old(g).flows(gli).union(Set::<FlowView>::empty()));
                assert(listed_ends(gli, queue@) =~= listed_ends(gli, old(queue)@).union(
                    Set::empty(),
                ));
            }
            while k < incoming.len()
                invariant
                    k <= incoming.len(),
                    gli.wf(),
                    g.wf(),
                    g.valid(gli),
                    g.no_empty_edges(),
                    target.valid(gli),
                    tv == target.view(gli),
                    types == weight.types(),
                    types != Set::<EdgeType>::empty(),
                    source == Node::Argument(a),
                    sources_listed(gli, caller, t, incoming@),
                    ends_valid(gli, queue@),
                    g.flows(gli) == old(g).flows(gli).union(
                        connected_below(gli, incoming@, a, tv, types, k as int),
                    ),
                    forall|v: NodeView| #[trigger]
                        old(g).node_views(gli).contains(v) ==> g.node_views(gli).contains(v),
                    forall|v: NodeView| #[trigger]
                        g.node_views(gli).contains(v) ==> old(g).node_views(gli).contains(v) || v
                            == tv || stands_for(caller, site, t, source.view(gli), v),
                    listed_ends(gli, queue@) == listed_ends(gli, old(queue)@).union(
                        ends(connected_below(gli, incoming@, a, tv, types, k as int)),
                    ),
                decreases incoming.len() - k,
            {
                let ghost before = connected_below(gli, incoming@, a, tv, types, k as int);
                let ghost after = connected_below(gli, incoming@, a, tv, types, k as int + 1);
                if incoming[k].1.has_type(EdgeType::Data(a)) {
                    let from = incoming[k].0;
                    g.add_weighted_edge(gli, from, target, weight);
                    proof {
                        lemma_listed_push(gli, queue@, (from, target));
                    }
                    queue.push((from, target));
                    proof {
                        let added = edge_flows(from.view(gli), tv, types);
                        assert(after =~= before.union(added)) by {
                            assert forall|f: FlowView| after.contains(f) == before.union(
                                added,
                            ).contains(f) by {
                                if after.contains(f) {
                                    let j = choose|j: int|
                                        0 <= j < k + 1 && (#[trigger] incoming@[j]).1.types().contains(
                                            EdgeType::Data(a),
                                        ) && f.0 == incoming@[j].0.view(gli) && f.1 == tv
                                            && types.contains(f.2);
                                    if j < k {
                                        assert(before.contains(f));
                                    }
                                }
                                if added.contains(f) {
                                    assert(incoming@[k as int].1.types().contains(
                                        EdgeType::Data(a),
                                    ));
                                }
                            }
                        }
                        lemma_ends_union(before, added);
                        lemma_ends_edge(from.view(gli), tv, types);
                        assert(g.flows(gli) =~= old(g).flows(gli).union(after));
                        assert(listed_ends(gli, queue@) =~= listed_ends(gli, old(queue)@).union(
                            ends(after),
                        ));
                        assert(caller.contains((from.view(gli), t, EdgeType::Data(a))));
                    }
                } else {
                    proof {
                        assert(after =~= before) by {
                            assert forall|f: FlowView| after.contains(f) == before.contains(f) by {
                                if after.contains(f) {
                                    let j = choose|j: int|
                                        0 <= j < k + 1 && (#[trigger] incoming@[j]).1.types().contains(
                                            EdgeType::Data(a),
                                        ) && f.0 == incoming@[j].0.view(gli) && f.1 == tv
                                            && types.contains(f.2);
                                    assert(j < k);
                                }
                            }
                        }
                    }
                }
                k = k + 1;
            }
            proof {
                let last = connected_below(gli, incoming@, a, tv, types, incoming.len() as int);
                assert(last =~= all) by {
                    assert forall|f: FlowView| last.contains(f) == all.contains(f) by {
                        if last.contains(f) {
                            let j = choose|j: int|
                                0 <= j < incoming.len() && (#[trigger] incoming@[j]).1.types().contains(
                                    EdgeType::Data(a),
                                ) && f.0 == incoming@[j].0.view(gli) && f.1 == tv && types.contains(
                                    f.2,
                                );
                            assert(caller.contains((incoming@[j].0.view(gli), t, EdgeType::Data(a))));
                        }
                        if all.contains(f) {
                            assert(caller.contains((f.0, t, EdgeType::Data(a))));
                        }
                    }
                }
            }
        },
    }
}

/// The flows from every node that stands for `s` to the first `n` listed
/// targets, each in the ways in which the call `t` fed the target.
pub open spec fn continued_below(
    gli: &GlobalLocationInterner,
    caller: Set<FlowView>,
    site: Link,
    t: NodeView,
    s: NodeView,
    outgoing: Seq<(Node, Edge)>,
    n: int,
) -> Set<FlowView> {
    Set::new(
        |f: FlowView|
            stands_for(caller, site, t, s, f.0) && exists|k: int|
                0 <= k < n && (#[trigger] outgoing[k]).0.view(gli) == f.1
                    && outgoing[k].1.types().contains(f.2),
    )
}

/// Puts in the flows that take the place of one edge of the callee, from
/// `source` to `d`, and lists their ends for pruning if they cross the
/// boundary of the callee.
pub(crate) fn splice_edge(
    g: &mut FlowGraph,
    gli: &GlobalLocationInterner,
    queue: &mut Vec<(Node, Node)>,
    incoming: &Vec<(Node, Edge)>,
    outgoing: &Vec<(Node, Edge)>,
    source: Node,
    moved: Node,
    d: Node,
    d_new: Node,
    weight: Edge,
    Ghost(caller): Ghost<Set<FlowView>>,
    Ghost(site): Ghost<Link>,
    Ghost(t): Ghost<NodeView>,
)
    requires
        gli.wf(),
        old(g).wf(),
        old(g).valid(gli),
        old(g).no_empty_edges(),
        source.valid(gli),
        d.valid(gli),
        d_new.valid(gli),
        d_new.view(gli) == relativized(site, d.view(gli)),
        weight.types() != Set::<EdgeType>::empty(),
        source is Call ==> moved.valid(gli) && moved.view(gli) == relativized(
            site,
            source.view(gli),
        ),
        sources_listed(gli, caller, t, incoming@),
        targets_listed(gli, caller, t, outgoing@),
        ends_valid(gli, old(queue)@),
    ensures
        final(g).wf(),
        final(g).valid(gli),
        final(g).no_empty_edges(),
        ends_valid(gli, final(queue)@),
        final(g).flows(gli) == old(g).flows(gli).union(
            contribution(caller, site, t, source.view(gli), d.view(gli), weight.types()),
        ),
        forall|v: NodeView| #[trigger]
            old(g).node_views(gli).contains(v) ==> final(g).node_views(gli).contains(v),
        forall|v: NodeView| #[trigger]
            final(g).node_views(gli).contains(v) ==> old(g).node_views(gli).contains(v) || v
                == d_new.view(gli) || stands_for(caller, site, t, source.view(gli), v) || exists|
                ty: EdgeType,
            |
                caller.contains((t, v, ty)),
        listed_ends(gli, final(queue)@) == listed_ends(gli, old(queue)@).union(
            if crosses(source.view(gli), d.view(gli)) {
                ends(contribution(caller, site, t, source.view(gli), d.view(gli), weight.types()))
            } else {
                Set::empty()
            },
        ),
{
    let ghost sv = source.view(gli);
    let ghost all = contribution(caller, site, t, sv, d.view(gli), weight.types());
    match d {
        Node::Call(_, _) => {
            connect_to(
                g,
                gli,
                queue,
                incoming,
                source,
                moved,
                d_new,
                weight,
                false,
                Ghost(caller),
                Ghost(site),
                Ghost(t),
            );
            proof {
                assert(all =~= connected(caller, site, t, sv, d_new.view(gli), weight.types()));
            }
        },
        _ => {
            let mut k: usize = 0;
            proof {
                assert(continued_below(gli, caller, site, t, sv, outgoing@, 0) =~= Set::<
                    FlowView,
                >::empty());
                lemma_ends_empty();
                assert(g.flows(gli) =~= old(g).flows(gli).union(Set::<FlowView>::empty()));
                assert(listed_ends(gli, queue@) =~= listed_ends(gli, old(queue)@).union(
                    Set::empty(),
                ));
            }
            while k < outgoing.len()
                invariant
                    k <= outgoing.len(),
                    gli.wf(),
                    g.wf(),
                    g.valid(gli),
                    g.no_empty_edges(),
                    source.valid(gli),
                    sv == source.view(gli),
                    !(d is Call),
                    source is Call ==> moved.valid(gli) && moved.view(gli) == relativized(site, sv),
                    sources_listed(gli, caller, t, incoming@),
                    targets_listed(gli, caller, t, outgoing@),
                    ends_valid(gli, queue@),
                    g.flows(gli) == old(g).flows(gli).union(
                        continued_below(gli, caller, site, t, sv, outgoing@, k as int),
                    ),
                    forall|v: NodeView| #[trigger]
                        old(g).node_views(gli).contains(v) ==> g.node_views(gli).contains(v),
                    forall|v: NodeView| #[trigger]
                        g.node_views(gli).contains(v) ==> old(g).node_views(gli).contains(v)
                            || stands_for(caller, site, t, sv, v) || exists|ty: EdgeType|
                            caller.contains((t, v, ty)),
                    listed_ends(gli, queue@) == listed_ends(gli, old(queue)@).union(
                        ends(continued_below(gli, caller, site, t, sv, outgoing@, k as int)),
                    ),
                decreases outgoing.len() - k,
            {
                let ghost before = continued_below(gli, caller, site, t, sv, outgoing@, k as int);
                let ghost after = continued_below(
                    gli,
                    caller,
                    site,
                    t,
                    sv,
                    outgoing@,
                    k as int + 1,
                );
                let target = outgoing[k].0;
                let out = outgoing[k].1;
                let ghost g_before = *g;
                connect_to(
                    g,
                    gli,
                    queue,
                    incoming,
                    source,
                    moved,
                    target,
                    out,
                    true,
                    Ghost(caller),
                    Ghost(site),
                    Ghost(t),
                );
                proof {
                    let added = connected(caller, site, t, sv, target.view(gli), out.types());
                    assert(after =~= before.union(added)) by {
                        assert forall|f: FlowView| after.contains(f) == before.union(added).contains(
                            f,
                        ) by {
                            if after.contains(f) {
                                let j = choose|j: int|
                                    0 <= j < k + 1 && (#[trigger] outgoing@[j]).0.view(gli) == f.1
                                        && outgoing@[j].1.types().contains(f.2);
                                if j < k {
                                    assert(before.contains(f));
                                }
                            }
                            if added.contains(f) {
                                assert(outgoing@[k as int].0.view(gli) == f.1);
                            }
                        }
                    }
                    lemma_ends_union(before, added);
                    assert(g.flows(gli) =~= old(g).flows(gli).union(after));
                    assert(listed_ends(gli, queue@) =~= listed_ends(gli, old(queue)@).union(
                        ends(after),
                    ));
                    assert(!(out.types() =~= Set::<EdgeType>::empty()));
                    let ty = choose|ty: EdgeType| out.types().contains(ty);
                    assert(caller.contains((t, target.view(gli), ty)));
                    assert forall|v: NodeView| #[trigger]
                        g.node_views(gli).contains(v) implies old(g).node_views(gli).contains(v)
                        || stands_for(caller, site, t, sv, v) || exists|ty: EdgeType|
                        caller.contains((t, v, ty)) by {
                        if !g_before.node_views(gli).contains(v) && !stands_for(
                            caller,
                            site,
                            t,
                            sv,
                            v,
                        ) {
                            assert(v == target.view(gli));
                        }
                    }
                }
                k = k + 1;
            }
            proof {
                let last = continued_below(
                    gli,
                    caller,
                    site,
                    t,
                    sv,
                    outgoing@,
                    outgoing.len() as int,
                );
                assert(last =~= all) by {
                    assert forall|f: FlowView| last.contains(f) == all.contains(f) by {
                        if last.contains(f) {
                            let j = choose|j: int|
                                0 <= j < outgoing.len() && (#[trigger] outgoing@[j]).0.view(gli)
                                    == f.1 && outgoing@[j].1.types().contains(f.2);
                            assert(caller.contains((t, outgoing@[j].0.view(gli), f.2)));
                        }
                        if all.contains(f) {
                            assert(caller.contains((t, f.1, f.2)));
                        }
                    }
                }
            }
        },
    }
}

/// The flows that take the place of the first `n` listed edges to the node
/// `d` of the callee.
pub open spec fn replaced_below(
    gli: &GlobalLocationInterner,
    caller: Set<FlowView>,
    site: Link,
    t: NodeView,
    d: NodeView,
    edges: Seq<(Node, Edge)>,
    n: int,
) -> Set<FlowView> {
    Set::new(
        |f: FlowView|
            exists|k: int|
                0 <= k < n && contribution(
                    caller,
                    site,
                    t,
                    (#[trigger] edges[k]).0.view(gli),
                    d,
                    edges[k].1.types(),
                ).contains(f),
    )
}

/// The ends of those among the flows of [`replaced_below`] that cross the
/// boundary of the callee.
pub open spec fn crossing_below(
    gli: &GlobalLocationInterner,
    caller: Set<FlowView>,
    site: Link,
    t: NodeView,
    d: NodeView,
    edges: Seq<(Node, Edge)>,
    n: int,
) -> Set<Ends> {
    Set::new(
        |e: Ends|
            exists|k: int|
                0 <= k < n && crosses((#[trigger] edges[k]).0.view(gli), d) && ends(
                    contribution(caller, site, t, edges[k].0.view(gli), d, edges[k].1.types()),
                ).contains(e),
    )
}

/// The flows that take the place of the flows of the callee to its node
/// `d`.
pub open spec fn replaced(
    caller: Set<FlowView>,
    callee: Set<FlowView>,
    site: Link,
    t: NodeView,
    d: NodeView,
) -> Set<FlowView> {
    Set::new(
        |f: FlowView|
            exists|h: FlowView| #[trigger]
                callee.contains(h) && h.1 == d && contribution(
                    caller,
                    site,
                    t,
                    h.0,
                    h.1,
                    set![h.2],
                ).contains(f),
    )
}

/// The ends of those among the flows of [`replaced`] that cross the
/// boundary of the callee.
pub open spec fn crossing(
    caller: Set<FlowView>,
    callee: Set<FlowView>,
    site: Link,
    t: NodeView,
    d: NodeView,
) -> Set<Ends> {
    Set::new(
        |e: Ends|
            exists|h: FlowView| #[trigger]
                callee.contains(h) && h.1 == d && crosses(h.0, h.1) && ends(
                    contribution(caller, site, t, h.0, h.1, set![h.2]),
                ).contains(e),
    )
}

/// Whether the second vector holds, for each node of the first, the node
/// nested under the call site.
pub open spec fn relocated(
    gli: &GlobalLocationInterner,
    site: Link,
    nodes: Seq<Node>,
    moved: Seq<Node>,
) -> bool {
    &&& nodes.len() == moved.len()
    &&& forall|j: int|
        0 <= j < nodes.len() ==> (#[trigger] nodes[j]).valid(gli) && (#[trigger] moved[j]).valid(
            gli,
        ) && moved[j].view(gli) == relativized(site, nodes[j].view(gli))
}

/// The node that stands at the position of `n` in the second vector.
pub(crate) fn moved_node(nodes: &Vec<Node>, moved: &Vec<Node>, n: Node) -> (r: Node)
    requires
        nodes.len() == moved.len(),
    ensures
        nodes@.contains(n) ==> exists|j: int| 0 <= j < nodes.len() && nodes[j] == n && r == moved[j],
{
    let mut j: usize = 0;
    while j < nodes.len()
        invariant
            j <= nodes.len(),
            nodes.len() == moved.len(),
            forall|k: int| 0 <= k < j ==> nodes[k] != n,
        decreases nodes.len() - j,
    {
        if nodes[j] == n {
            return moved[j];
        }
        j = j + 1;
    }
    n
}

/// Puts in the flows that take the place of the flows of the callee to its
/// node at position `i`, and makes the nested node a node of the graph.
pub(crate) fn splice_node(
    g: &mut FlowGraph,
    gli: &GlobalLocationInterner,
    queue: &mut Vec<(Node, Node)>,
    callee: &FlowGraph,
    incoming: &Vec<(Node, Edge)>,
    outgoing: &Vec<(Node, Edge)>,
    nodes: &Vec<Node>,
    moved: &Vec<Node>,
    i: usize,
    Ghost(caller): Ghost<Set<FlowView>>,
    Ghost(site): Ghost<Link>,
    Ghost(t): Ghost<NodeView>,
    Ghost(allowed): Ghost<Set<NodeView>>,
)
    requires
        gli.wf(),
        old(g).wf(),
        old(g).valid(gli),
        old(g).no_empty_edges(),
        callee.wf(),
        callee.valid(gli),
        callee.no_empty_edges(),
        i < nodes.len(),
        nodes@.to_set() == callee.nodes(),
        relocated(gli, site, nodes@, moved@),
        sources_listed(gli, caller, t, incoming@),
        targets_listed(gli, caller, t, outgoing@),
        forall|v: NodeView| #[trigger] old(g).node_views(gli).contains(v) ==> allowed.contains(v),
        forall|j: int| 0 <= j < moved.len() ==> allowed.contains((#[trigger] moved[j]).view(gli)),
        forall|f: FlowView| #[trigger]
            caller.contains(f) ==> allowed.contains(f.0) && allowed.contains(f.1),
        ends_valid(gli, old(queue)@),
    ensures
        final(g).wf(),
        final(g).valid(gli),
        final(g).no_empty_edges(),
        ends_valid(gli, final(queue)@),
        final(g).flows(gli) == old(g).flows(gli).union(
            replaced(caller, callee.flows(gli), site, t, nodes[i as int].view(gli)),
        ),
        forall|v: NodeView| #[trigger]
            old(g).node_views(gli).contains(v) ==> final(g).node_views(gli).contains(v),
        final(g).node_views(gli).contains(moved[i as int].view(gli)),
        forall|v: NodeView| #[trigger] final(g).node_views(gli).contains(v) ==> allowed.contains(v),
        listed_ends(gli, final(queue)@) == listed_ends(gli, old(queue)@).union(
            crossing(caller, callee.flows(gli), site, t, nodes[i as int].view(gli)),
        ),
{
    let d = nodes[i];
    let d_new = moved[i];
    let ghost dv = d.view(gli);
    let ghost inner = callee.flows(gli);
    g.add_node_at(gli, d_new);
    let edges = callee.incoming_at(gli, d);
    let mut k: usize = 0;
    proof {
        assert(replaced_below(gli, caller, site, t, dv, edges@, 0) =~= Set::<FlowView>::empty());
        assert(crossing_below(gli, caller, site, t, dv, edges@, 0) =~= Set::<Ends>::empty());
        assert(g.flows(gli) =~= old(g).flows(gli).union(Set::<FlowView>::empty()));
        assert(listed_ends(gli, queue@) =~= listed_ends(gli, old(queue)@).union(Set::empty()));
    }
    while k < edges.len()
        invariant
            k <= edges.len(),
            gli.wf(),
            g.wf(),
            g.valid(gli),
            g.no_empty_edges(),
            callee.wf(),
            callee.valid(gli),
            i < nodes.len(),
            d == nodes[i as int],
            d_new == moved[i as int],
            dv == d.view(gli),
            inner == callee.flows(gli),
            nodes@.to_set() == callee.nodes(),
            relocated(gli, site, nodes@, moved@),
            sources_listed(gli, caller, t, incoming@),
            targets_listed(gli, caller, t, outgoing@),
            sources_listed(gli, inner, dv, edges@),
            ends_valid(gli, queue@),
            forall|j: int| 0 <= j < edges.len() ==> callee.has_edge((#[trigger] edges[j]).0, d),
            forall|j: int| 0 <= j < moved.len() ==> allowed.contains((#[trigger] moved[j]).view(gli)),
            forall|f: FlowView| #[trigger]
                caller.contains(f) ==> allowed.contains(f.0) && allowed.contains(f.1),
            g.flows(gli) == old(g).flows(gli).union(
                replaced_below(gli, caller, site, t, dv, edges@, k as int),
            ),
            forall|v: NodeView| #[trigger]
                old(g).node_views(gli).contains(v) ==> g.node_views(gli).contains(v),
            g.node_views(gli).contains(d_new.view(gli)),
            forall|v: NodeView| #[trigger] g.node_views(gli).contains(v) ==> allowed.contains(v),
            listed_ends(gli, queue@) == listed_ends(gli, old(queue)@).union(
                crossing_below(gli, caller, site, t, dv, edges@, k as int),
            ),
        decreases edges.len() - k,
    {
        let source = edges[k].0;
        let weight = edges[k].1;
        let source_moved = moved_node(nodes, moved, source);
        let ghost sv = source.view(gli);
        let ghost g_before = *g;
        proof {
            callee.lemma_endpoints(source, d);
            assert(nodes@.to_set().contains(source));
            assert(nodes@.contains(source));
            let j = choose|j: int| 0 <= j < nodes.len() && nodes[j] == source && source_moved == moved[j];
            assert(moved[j].valid(gli));
        }
        splice_edge(
            g,
            gli,
            queue,
            incoming,
            outgoing,
            source,
            source_moved,
            d,
            d_new,
            weight,
            Ghost(caller),
            Ghost(site),
            Ghost(t),
        );
        proof {
            let before = replaced_below(gli, caller, site, t, dv, edges@, k as int);
            let after = replaced_below(gli, caller, site, t, dv, edges@, k as int + 1);
            let added = contribution(caller, site, t, sv, dv, weight.types());
            assert(after =~= before.union(added)) by {
                assert forall|f: FlowView| after.contains(f) == before.union(added).contains(f) by {
                    if after.contains(f) {
                        let j = choose|j: int|
                            0 <= j < k + 1 && contribution(
                                caller,
                                site,
                                t,
                                (#[trigger] edges@[j]).0.view(gli),
                                dv,
                                edges@[j].1.types(),
                            ).contains(f);
                        if j < k {
                            assert(before.contains(f));
                        }
                    }
                    if added.contains(f) {
                        assert(contribution(
                            caller,
                            site,
                            t,
                            edges@[k as int].0.view(gli),
                            dv,
                            edges@[k as int].1.types(),
                        ).contains(f));
                    }
                }
            }
            assert(g.flows(gli) =~= old(g).flows(gli).union(after));
            let qbefore = crossing_below(gli, caller, site, t, dv, edges@, k as int);
            let qafter = crossing_below(gli, caller, site, t, dv, edges@, k as int + 1);
            let qadded = if crosses(sv, dv) {
                ends(added)
            } else {
                Set::<Ends>::empty()
            };
            assert(qafter =~= qbefore.union(qadded)) by {
                assert forall|e: Ends| qafter.contains(e) == qbefore.union(qadded).contains(e) by {
                    if qafter.contains(e) {
                        let j = choose|j: int|
                            0 <= j < k + 1 && crosses((#[trigger] edges@[j]).0.view(gli), dv)
                                && ends(
                                contribution(
                                    caller,
                                    site,
                                    t,
                                    edges@[j].0.view(gli),
                                    dv,
                                    edges@[j].1.types(),
                                ),
                            ).contains(e);
                        if j < k {
                            assert(qbefore.contains(e));
                        }
                    }
                    if qadded.contains(e) {
                        assert(crosses(edges@[k as int].0.view(gli), dv));
                    }
                }
            }
            assert(listed_ends(gli, queue@) =~= listed_ends(gli, old(queue)@).union(qafter));
            assert forall|v: NodeView| #[trigger] g.node_views(gli).contains(v) implies allowed.contains(
                v,
            ) by {
                if !g_before.node_views(gli).contains(v) && v != d_new.view(gli) {
                    if stands_for(caller, site, t, sv, v) {
                        if source is Call {
                            assert(v == source_moved.view(gli));
                        } else {
                            assert(source is Argument);
                            assert(caller.contains((v, t, EdgeType::Data(source->Argument_0))));
                        }
                    } else {
                        let ty = choose|ty: EdgeType| caller.contains((t, v, ty));
                        assert(caller.contains((t, v, ty)));
                    }
                }
            }
        }
        k = k + 1;
    }
    proof {
        let last = replaced_below(gli, caller, site, t, dv, edges@, edges.len() as int);
        let all = replaced(caller, inner, site, t, dv);
        assert(last =~= all) by {
            assert forall|f: FlowView| last.contains(f) == all.contains(f) by {
                if last.contains(f) {
                    let j = choose|j: int|
                        0 <= j < edges.len() && contribution(
                            caller,
                            site,
                            t,
                            (#[trigger] edges@[j]).0.view(gli),
                            dv,
                            edges@[j].1.types(),
                        ).contains(f);
                    let types = edges@[j].1.types();
                    assert(!(types =~= Set::<EdgeType>::empty()));
                    let ty = if dv is Call {
                        f.2
                    } else {
                        choose|ty: EdgeType| types.contains(ty)
                    };
                    assert(types.contains(ty));
                    let h: FlowView = (edges@[j].0.view(gli), dv, ty);
                    assert(inner.contains(h));
                    assert(contribution(caller, site, t, h.0, h.1, set![h.2]).contains(f));
                }
                if all.contains(f) {
                    let h = choose|h: FlowView| #[trigger]
                        inner.contains(h) && h.1 == dv && contribution(
                            caller,
                            site,
                            t,
                            h.0,
                            h.1,
                            set![h.2],
                        ).contains(f);
                    assert(inner.contains((h.0, dv, h.2)));
                    let j = choose|j: int|
                        0 <= j < edges.len() && (#[trigger] edges@[j]).0.view(gli) == h.0
                            && edges@[j].1.types().contains(h.2);
                    assert(contribution(
                        caller,
                        site,
                        t,
                        edges@[j].0.view(gli),
                        dv,
                        edges@[j].1.types(),
                    ).contains(f));
                }
            }
        }
        let qlast = crossing_below(gli, caller, site, t, dv, edges@, edges.len() as int);
        let qall = crossing(caller, inner, site, t, dv);
        assert(qlast =~= qall) by {
            assert forall|e: Ends| qlast.contains(e) == qall.contains(e) by {
                if qlast.contains(e) {
                    let j = choose|j: int|
                        0 <= j < edges.len() && crosses((#[trigger] edges@[j]).0.view(gli), dv)
                            && ends(
                            contribution(
                                caller,
                                site,
                                t,
                                edges@[j].0.view(gli),
                                dv,
                                edges@[j].1.types(),
                            ),
                        ).contains(e);
                    let types = edges@[j].1.types();
                    let c = contribution(caller, site, t, edges@[j].0.view(gli), dv, types);
                    let u = choose|u: EdgeType| c.contains((e.0, e.1, u));
                    assert(!(types =~= Set::<EdgeType>::empty()));
                    let ty = if dv is Call {
                        u
                    } else {
                        choose|ty: EdgeType| types.contains(ty)
                    };
                    assert(types.contains(ty));
                    let h: FlowView = (edges@[j].0.view(gli), dv, ty);
                    assert(inner.contains(h));
                    assert(contribution(caller, site, t, h.0, h.1, set![h.2]).contains(
                        (e.0, e.1, u),
                    ));
                    assert(ends(contribution(caller, site, t, h.0, h.1, set![h.2])).contains(e));
                }
                if qall.contains(e) {
                    let h = choose|h: FlowView| #[trigger]
                        inner.contains(h) && h.1 == dv && crosses(h.0, h.1) && ends(
                            contribution(caller, site, t, h.0, h.1, set![h.2]),
                        ).contains(e);
                    let u = choose|u: EdgeType|
                        contribution(caller, site, t, h.0, h.1, set![h.2]).contains((e.0, e.1, u));
                    assert(inner.contains((h.0, dv, h.2)));
                    let j = choose|j: int|
                        0 <= j < edges.len() && (#[trigger] edges@[j]).0.view(gli) == h.0
                            && edges@[j].1.types().contains(h.2);
                    assert(contribution(
                        caller,
                        site,
                        t,
                        edges@[j].0.view(gli),
                        dv,
                        edges@[j].1.types(),
                    ).contains((e.0, e.1, u)));
                }
            }
        }
    }
}

/// Whether the flow `f` takes the place of a flow of the callee.
pub open spec fn spliced(
    caller: Set<FlowView>,
    callee: Set<FlowView>,
    site: Link,
    t: NodeView,
    f: FlowView,
) -> bool {
    exists|h: FlowView| #[trigger]
        callee.contains(h) && contribution(caller, site, t, h.0, h.1, set![h.2]).contains(f)
}

/// The flows of the caller once the callee is inlined at the call `t`: the
/// flows of the caller and the flows that take the place of flows of the
/// callee, but for those from or to `t`.
pub open spec fn inlined_flows(
    caller: Set<FlowView>,
    callee: Set<FlowView>,
    site: Link,
    t: NodeView,
) -> Set<FlowView> {
    Set::new(
        |f: FlowView| (caller.contains(f) || spliced(caller, callee, site, t, f)) && f.0 != t && f.1 != t,
    )
}

/// The nodes of the caller once the callee is inlined at the call `t`: the
/// nodes of the caller and the nodes of the callee, nested under the call
/// site, but for `t`.
pub open spec fn inlined_nodes(
    caller: Set<NodeView>,
    callee: Set<NodeView>,
    site: Link,
    t: NodeView,
) -> Set<NodeView> {
    Set::new(
        |v: NodeView|
            (caller.contains(v) || exists|w: NodeView| #[trigger]
                callee.contains(w) && v == relativized(site, w)) && v != t,
    )
}

/// The ends of the flows that are put in when the callee is inlined at the
/// call `t` and that cross the boundary of the callee.
pub open spec fn boundary(
    caller: Set<FlowView>,
    callee: Set<FlowView>,
    site: Link,
    t: NodeView,
) -> Set<Ends> {
    Set::new(
        |e: Ends|
            exists|h: FlowView| #[trigger]
                callee.contains(h) && crosses(h.0, h.1) && ends(
                    contribution(caller, site, t, h.0, h.1, set![h.2]),
                ).contains(e),
    )
}

/// The flows that take the place of the flows of the callee to the first
/// `n` listed nodes.
pub open spec fn replaced_upto(
    gli: &GlobalLocationInterner,
    caller: Set<FlowView>,
    callee: Set<FlowView>,
    site: Link,
    t: NodeView,
    nodes: Seq<Node>,
    n: int,
) -> Set<FlowView> {
    Set::new(
        |f: FlowView|
            exists|j: int|
                0 <= j < n && replaced(caller, callee, site, t, (#[trigger] nodes[j]).view(gli)).contains(
                    f,
                ),
    )
}

/// The ends of those among the flows of [`replaced_upto`] that cross the
/// boundary of the callee.
pub open spec fn crossing_upto(
    gli: &GlobalLocationInterner,
    caller: Set<FlowView>,
    callee: Set<FlowView>,
    site: Link,
    t: NodeView,
    nodes: Seq<Node>,
    n: int,
) -> Set<Ends> {
    Set::new(
        |e: Ends|
            exists|j: int|
                0 <= j < n && crossing(caller, callee, site, t, (#[trigger] nodes[j]).view(gli)).contains(
                    e,
                ),
    )
}

/// The nodes of a graph, each nested under the call site.
fn relocate(gli: &mut GlobalLocationInterner, site: GliAt, nodes: &Vec<Node>) -> (moved: Vec<Node>)
    requires
        old(gli).wf(),
        forall|j: int| 0 <= j < nodes.len() ==> (#[trigger] nodes[j]).valid(old(gli)),
    ensures
        final(gli).wf(),
        final(gli).extends(old(gli)),
        relocated(final(gli), site.link(), nodes@, moved@),
{
    let mut moved: Vec<Node> = Vec::new();
    let mut j: usize = 0;
    while j < nodes.len()
        invariant
            j <= nodes.len(),
            moved.len() == j,
            gli.wf(),
            gli.extends(old(gli)),
            forall|k: int| 0 <= k < nodes.len() ==> (#[trigger] nodes[k]).valid(old(gli)),
            forall|k: int|
                0 <= k < j ==> (#[trigger] moved[k]).valid(gli) && moved[k].view(gli) == relativized(
                    site.link(),
                    nodes[k].view(old(gli)),
                ),
        decreases nodes.len() - j,
    {
        let ghost gli_before = *gli;
        let ghost moved_before = moved@;
        proof {
            nodes[j as int].lemma_extends_view(gli, old(gli));
        }
        let n = match nodes[j] {
            Node::Call(l, d) => Node::Call(site.relativize(gli, l), d),
            Node::Return => Node::Return,
            Node::Argument(a) => Node::Argument(a),
        };
        moved.push(n);
        proof {
            assert forall|k: int| 0 <= k < j + 1 implies (#[trigger] moved[k]).valid(gli)
                && moved[k].view(gli) == relativized(site.link(), nodes[k].view(old(gli))) by {
                if k < j {
                    assert(moved[k] == moved_before[k]);
                    moved_before[k].lemma_extends_view(gli, &gli_before);
                }
            }
        }
        j = j + 1;
    }
    proof {
        assert forall|k: int| 0 <= k < nodes.len() implies (#[trigger] nodes[k]).valid(gli) && (
        #[trigger] moved[k]).valid(gli) && moved[k].view(gli) == relativized(
            site.link(),
            nodes[k].view(gli),
        ) by {
            nodes[k].lemma_extends_view(gli, old(gli));
        }
    }
    moved
}

/// Replaces the call node `t` of the graph by the graph of the callee,
/// nested under the call site, and lists the ends of the flows that cross
/// the boundary of the callee.
pub fn splice(
    g: &mut FlowGraph,
    gli: &mut GlobalLocationInterner,
    queue: &mut Vec<(Node, Node)>,
    callee: &FlowGraph,
    site: GliAt,
    t: Node,
)
    requires
        old(gli).wf(),
        old(g).wf(),
        old(g).valid(old(gli)),
        old(g).no_empty_edges(),
        callee.wf(),
        callee.valid(old(gli)),
        callee.no_empty_edges(),
        t.valid(old(gli)),
        ends_valid(old(gli), old(queue)@),
    ensures
        final(gli).wf(),
        final(gli).extends(old(gli)),
        final(g).wf(),
        final(g).valid(final(gli)),
        final(g).no_empty_edges(),
        ends_valid(final(gli), final(queue)@),
        final(g).flows(final(gli)) == inlined_flows(
            old(g).flows(old(gli)),
            callee.flows(old(gli)),
            site.link(),
            t.view(old(gli)),
        ),
        final(g).node_views(final(gli)) == inlined_nodes(
            old(g).node_views(old(gli)),
            callee.node_views(old(gli)),
            site.link(),
            t.view(old(gli)),
        ),
        listed_ends(final(gli), final(queue)@) == listed_ends(old(gli), old(queue)@).union(
            boundary(old(g).flows(old(gli)), callee.flows(old(gli)), site.link(), t.view(old(gli))),
        ),
{
    let nodes = callee.node_list();
    proof {
        assert forall|j: int| 0 <= j < nodes.len() implies (#[trigger] nodes[j]).valid(gli) by {
            assert(nodes@.to_set().contains(nodes[j]));
        }
    }
    let moved = relocate(gli, site, &nodes);
    proof {
        g.lemma_extends(gli, old(gli));
        callee.lemma_extends(gli, old(gli));
        t.lemma_extends_view(gli, old(gli));
        lemma_listed_extends(gli, old(gli), queue@);
    }
    let incoming = g.incoming_at(gli, t);
    let outgoing = g.outgoing_at(gli, t);
    let ghost caller = g.flows(gli);
    let ghost inner = callee.flows(gli);
    let ghost link = site.link();
    let ghost tv = t.view(gli);
    let ghost caller_nodes = g.node_views(gli);
    let ghost allowed = Set::new(
        |v: NodeView|
            caller_nodes.contains(v) || exists|w: NodeView| #[trigger]
                callee.node_views(gli).contains(w) && v == relativized(link, w),
    );
    proof {
        assert forall|j: int| 0 <= j < moved.len() implies allowed.contains(
            (#[trigger] moved[j]).view(gli),
        ) by {
            assert(nodes@.to_set().contains(nodes[j]));
            callee.lemma_node_view(gli, nodes[j]);
        }
        assert forall|f: FlowView| #[trigger] caller.contains(f) implies allowed.contains(f.0)
            && allowed.contains(f.1) by {
            Node::lemma_found(gli, f.0);
            Node::lemma_found(gli, f.1);
            g.lemma_endpoints(Node::find(gli, f.0)->0, Node::find(gli, f.1)->0);
        }
        assert(replaced_upto(gli, caller, inner, link, tv, nodes@, 0) =~= Set::<FlowView>::empty());
        assert(crossing_upto(gli, caller, inner, link, tv, nodes@, 0) =~= Set::<Ends>::empty());
        assert(g.flows(gli) =~= caller.union(Set::<FlowView>::empty()));
        assert(listed_ends(gli, queue@) =~= listed_ends(old(gli), old(queue)@).union(
            Set::empty(),
        ));
    }
    let mut i: usize = 0;
    while i < nodes.len()
        invariant
            i <= nodes.len(),
            gli.wf(),
            g.wf(),
            g.valid(gli),
            g.no_empty_edges(),
            callee.wf(),
            callee.valid(gli),
            callee.no_empty_edges(),
            inner == callee.flows(gli),
            nodes@.to_set() == callee.nodes(),
            relocated(gli, link, nodes@, moved@),
            sources_listed(gli, caller, tv, incoming@),
            targets_listed(gli, caller, tv, outgoing@),
            ends_valid(gli, queue@),
            forall|j: int| 0 <= j < moved.len() ==> allowed.contains((#[trigger] moved[j]).view(gli)),
            forall|f: FlowView| #[trigger]
                caller.contains(f) ==> allowed.contains(f.0) && allowed.contains(f.1),
            g.flows(gli) == caller.union(replaced_upto(gli, caller, inner, link, tv, nodes@, i as int)),
            forall|v: NodeView| #[trigger] caller_nodes.contains(v) ==> g.node_views(gli).contains(v),
            forall|j: int| 0 <= j < i ==> g.node_views(gli).contains((#[trigger] moved[j]).view(gli)),
            forall|v: NodeView| #[trigger] g.node_views(gli).contains(v) ==> allowed.contains(v),
            listed_ends(gli, queue@) == listed_ends(old(gli), old(queue)@).union(
                crossing_upto(gli, caller, inner, link, tv, nodes@, i as int),
            ),
        decreases nodes.len() - i,
    {
        let ghost g_before = *g;
        splice_node(
            g,
            gli,
            queue,
            callee,
            &incoming,
            &outgoing,
            &nodes,
            &moved,
            i,
            Ghost(caller),
            Ghost(link),
            Ghost(tv),
            Ghost(allowed),
        );
        proof {
            let dv = nodes@[i as int].view(gli);
            let before = replaced_upto(gli, caller, inner, link, tv, nodes@, i as int);
            let after = replaced_upto(gli, caller, inner, link, tv, nodes@, i as int + 1);
            let added = replaced(caller, inner, link, tv, dv);
            assert(after =~= before.union(added)) by {
                assert forall|f: FlowView| after.contains(f) == before.union(added).contains(f) by {
                    if after.contains(f) {
                        let j = choose|j: int|
                            0 <= j < i + 1 && replaced(
                                caller,
                                inner,
                                link,
                                tv,
                                (#[trigger] nodes@[j]).view(gli),
                            ).contains(f);
                        if j < i {
                            assert(before.contains(f));
                        }
                    }
                    if added.contains(f) {
                        assert(replaced(caller, inner, link, tv, nodes@[i as int].view(gli)).contains(
                            f,
                        ));
                    }
                }
            }
            assert(g.flows(gli) =~= caller.union(after));
            let qbefore = crossing_upto(gli, caller, inner, link, tv, nodes@, i as int);
            let qafter = crossing_upto(gli, caller, inner, link, tv, nodes@, i as int + 1);
            let qadded = crossing(caller, inner, link, tv, dv);
            assert(qafter =~= qbefore.union(qadded)) by {
                assert forall|e: Ends| qafter.contains(e) == qbefore.union(qadded).contains(e) by {
                    if qafter.contains(e) {
                        let j = choose|j: int|
                            0 <= j < i + 1 && crossing(
                                caller,
                                inner,
                                link,
                                tv,
                                (#[trigger] nodes@[j]).view(gli),
                            ).contains(e);
                        if j < i {
                            assert(qbefore.contains(e));
                        }
                    }
                    if qadded.contains(e) {
                        assert(crossing(caller, inner, link, tv, nodes@[i as int].view(gli)).contains(
                            e,
                        ));
                    }
                }
            }
            assert(listed_ends(gli, queue@) =~= listed_ends(old(gli), old(queue)@).union(qafter));
            assert forall|j: int| 0 <= j < i + 1 implies g.node_views(gli).contains(
                (#[trigger] moved[j]).view(gli),
            ) by {
                if j < i {
                    assert(g_before.node_views(gli).contains(moved[j].view(gli)));
                }
            }
        }
        i = i + 1;
    }
    let ghost flows_before = g.flows(gli);
    let ghost nodes_before = g.node_views(gli);
    g.remove_node_at(gli, t);
    proof {
        let all = replaced_upto(gli, caller, inner, link, tv, nodes@, nodes.len() as int);
        assert forall|f: FlowView| all.contains(f) == spliced(caller, inner, link, tv, f) by {
            if all.contains(f) {
                let j = choose|j: int|
                    0 <= j < nodes.len() && replaced(
                        caller,
                        inner,
                        link,
                        tv,
                        (#[trigger] nodes@[j]).view(gli),
                    ).contains(f);
                let d = nodes@[j].view(gli);
                let h = choose|h: FlowView| #[trigger]
                    inner.contains(h) && h.1 == d && contribution(
                        caller,
                        link,
                        tv,
                        h.0,
                        h.1,
                        set![h.2],
                    ).contains(f);
                assert(inner.contains(h));
            }
            if spliced(caller, inner, link, tv, f) {
                let h = choose|h: FlowView| #[trigger]
                    inner.contains(h) && contribution(caller, link, tv, h.0, h.1, set![h.2]).contains(
                        f,
                    );
                Node::lemma_found(gli, h.0);
                Node::lemma_found(gli, h.1);
                let b = Node::find(gli, h.1)->0;
                callee.lemma_endpoints(Node::find(gli, h.0)->0, b);
                assert(nodes@.to_set().contains(b));
                let j = choose|j: int| 0 <= j < nodes.len() && nodes@[j] == b;
                assert(replaced(caller, inner, link, tv, nodes@[j].view(gli)).contains(f));
            }
        }
        assert(g.flows(gli) =~= inlined_flows(caller, inner, link, tv));
        let qall = crossing_upto(gli, caller, inner, link, tv, nodes@, nodes.len() as int);
        assert forall|e: Ends| qall.contains(e) == boundary(caller, inner, link, tv).contains(e) by {
            if qall.contains(e) {
                let j = choose|j: int|
                    0 <= j < nodes.len() && crossing(
                        caller,
                        inner,
                        link,
                        tv,
                        (#[trigger] nodes@[j]).view(gli),
                    ).contains(e);
                let d = nodes@[j].view(gli);
                let h = choose|h: FlowView| #[trigger]
                    inner.contains(h) && h.1 == d && crosses(h.0, h.1) && ends(
                        contribution(caller, link, tv, h.0, h.1, set![h.2]),
                    ).contains(e);
                assert(inner.contains(h));
            }
            if boundary(caller, inner, link, tv).contains(e) {
                let h = choose|h: FlowView| #[trigger]
                    inner.contains(h) && crosses(h.0, h.1) && ends(
                        contribution(caller, link, tv, h.0, h.1, set![h.2]),
                    ).contains(e);
                Node::lemma_found(gli, h.0);
                Node::lemma_found(gli, h.1);
                let b = Node::find(gli, h.1)->0;
                callee.lemma_endpoints(Node::find(gli, h.0)->0, b);
                assert(nodes@.to_set().contains(b));
                let j = choose|j: int| 0 <= j < nodes.len() && nodes@[j] == b;
                assert(crossing(caller, inner, link, tv, nodes@[j].view(gli)).contains(e));
            }
        }
        assert(qall =~= boundary(caller, inner, link, tv));
        assert forall|v: NodeView|
            g.node_views(gli).contains(v) == inlined_nodes(
                caller_nodes,
                callee.node_views(gli),
                link,
                tv,
            ).contains(v) by {
            if v != tv {
                if exists|w: NodeView| #[trigger]
                    callee.node_views(gli).contains(w) && v == relativized(link, w) {
                    let w = choose|w: NodeView| #[trigger]
                        callee.node_views(gli).contains(w) && v == relativized(link, w);
                    Node::lemma_found(gli, w);
                    let b = Node::find(gli, w)->0;
                    assert(nodes@.to_set().contains(b));
                    let j = choose|j: int| 0 <= j < nodes.len() && nodes@[j] == b;
                    assert(nodes_before.contains(moved@[j].view(gli)));
                }
                if nodes_before.contains(v) {
                    assert(allowed.contains(v));
                }
            }
        }
        assert(g.node_views(gli) =~= inlined_nodes(
            caller_nodes,
            callee.node_views(gli),
            link,
            tv,
        ));
    }
}

} // verus!
