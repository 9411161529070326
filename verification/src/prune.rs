//! Pruning of flows that the place equations do not support.
//!
//! A flow into an argument of a node is plausible if the variable that the
//! node reads for that argument can be reached, through the equations, from
//! a variable that the source of the flow reads or writes. A flow that is
//! checked and found implausible is taken out of the graph.

use crate::algebra::{base_views, reachable, solve_reachable};
use crate::edge::{EdgeType, MAX_ARGUMENTS};
use crate::global_location::{GlobalLocation, GlobalLocationInterner, Link};
use crate::graph::{FlowView, Node, NodeView};
use crate::inline::{EquationView, GlobalLocal, GlobalLocalView, InlinedGraph};
use crate::regal::{arg_num_to_local, argument_local, Call, Local, Program, RETURN_PLACE};
use crate::splice::{ends, ends_valid, listed_ends, Ends};
use vstd::prelude::*;

verus! {

/// The call at the innermost point of a chain, if the program has it.
pub open spec fn called(program: &Program, chain: Seq<Link>) -> Option<Call> {
    if chain.len() > 0 && chain.last().function < program.bodies.len() {
        match program.bodies[chain.last().function as int].position(chain.last().location) {
            Some(i) => Some(program.bodies[chain.last().function as int].calls[i].1),
            None => None,
        }
    } else {
        None
    }
}

/// A variable of the procedure whose graph is looked at.
pub open spec fn root_local(local: Local) -> GlobalLocalView {
    GlobalLocalView { local, location: Seq::empty() }
}

/// The variable that a node reads for the argument at position `idx`. For
/// the return node and for a formal argument it is the variable of the node,
/// whatever the position. None for a call that the program does not have, or
/// whose argument at that position is a constant.
pub open spec fn node_local(program: &Program, node: NodeView, idx: u32) -> Option<GlobalLocalView> {
    match node {
        NodeView::Return => Some(root_local(RETURN_PLACE)),
        NodeView::Argument(a) => Some(root_local(argument_local(a))),
        NodeView::Call(c, _) => match called(program, c) {
            Some(call) => if idx < call.arguments.len() {
                match call.arguments[idx as int] {
                    Some(arg) => Some(
                        GlobalLocalView { local: arg.local, location: c.drop_last() },
                    ),
                    None => None,
                }
            } else {
                None
            },
            None => None,
        },
    }
}

/// The variables that a call reads or writes: its arguments and the
/// variable that receives its result.
pub open spec fn call_locals(call: Call) -> Seq<Local> {
    match call.return_to {
        Some(r) => call.argument_locals_below(call.arguments.len() as nat).push(r),
        None => call.argument_locals_below(call.arguments.len() as nat),
    }
}

/// The variables through which a source hands on its value: the variable of
/// a formal argument, or the variables that a call reads or writes. None for
/// the return node and for a call that the program does not have.
pub open spec fn source_locals(program: &Program, node: NodeView) -> Option<Set<GlobalLocalView>> {
    match node {
        NodeView::Return => None,
        NodeView::Argument(a) => Some(set![root_local(argument_local(a))]),
        NodeView::Call(c, _) => match called(program, c) {
            Some(call) => Some(
                Set::new(
                    |l: GlobalLocalView|
                        l.location == c.drop_last() && call_locals(call).contains(l.local),
                ),
            ),
            None => None,
        },
    }
}

/// Whether no flow starts at the return value. Nothing flows on from what a
/// procedure returns inside its own graph, so a graph with such a flow was
/// not made by the analysis.
pub open spec fn no_return_source(flows: Set<FlowView>) -> bool {
    forall|f: FlowView| #[trigger] flows.contains(f) ==> f.0 != NodeView::Return
}

/// Whether the equations support the flow. A flow of control is always
/// supported, and so is a flow whose variables cannot be told.
pub open spec fn plausible(program: &Program, eqs: Seq<EquationView>, f: FlowView) -> bool {
    match f.2 {
        EdgeType::Control => true,
        EdgeType::Data(i) => match (node_local(program, f.1, i), source_locals(program, f.0)) {
            (Some(l), Some(targets)) => reachable(eqs, l, targets),
            _ => true,
        },
    }
}

/// The flows that are left when the flows between the given ends are
/// checked against the equations.
pub open spec fn pruned_flows(
    program: &Program,
    eqs: Seq<EquationView>,
    flows: Set<FlowView>,
    checked: Set<Ends>,
) -> Set<FlowView> {
    Set::new(
        |f: FlowView| flows.contains(f) && (checked.contains((f.0, f.1)) ==> plausible(program, eqs, f)),
    )
}

/// Whether an earlier pass has checked the flows from `from` to `to`, if
/// there are any: both are calls inside the same inlined callee, or neither
/// is a call inside an inlined callee.
pub open spec fn pruned_before(from: NodeView, to: NodeView) -> bool {
    match (to, from) {
        (NodeView::Call(c1, _), NodeView::Call(c2, _)) => c1.len() > 0 && c2.len() > 0 && c1[0]
            == c2[0],
        (NodeView::Call(c, _), _) => c.len() == 1,
        (_, NodeView::Call(c, _)) => c.len() == 1,
        _ => true,
    }
}

/// The ends of the flows that no earlier pass has checked.
pub open spec fn prunable(flows: Set<FlowView>) -> Set<Ends> {
    Set::new(|e: Ends| ends(flows).contains(e) && !pruned_before(e.0, e.1))
}

/// Checking the flows of a graph that were not checked before, and then
/// checking those of the result, leaves what the first check left.
pub proof fn lemma_prune_idempotent(program: &Program, eqs: Seq<EquationView>, flows: Set<FlowView>)
    ensures
        pruned_flows(
            program,
            eqs,
            pruned_flows(program, eqs, flows, prunable(flows)),
            prunable(pruned_flows(program, eqs, flows, prunable(flows))),
        ) == pruned_flows(program, eqs, flows, prunable(flows)),
{
    let once = pruned_flows(program, eqs, flows, prunable(flows));
    let twice = pruned_flows(program, eqs, once, prunable(once));
    assert forall|f: FlowView| twice.contains(f) == once.contains(f) by {
        if once.contains(f) && prunable(once).contains((f.0, f.1)) {
            assert(ends(flows).contains((f.0, f.1)));
        }
    }
    assert(twice =~= once);
}

/// Pruning takes flows out and puts none in.
pub proof fn lemma_prune_subset(
    program: &Program,
    eqs: Seq<EquationView>,
    flows: Set<FlowView>,
    checked: Set<Ends>,
)
    ensures
        pruned_flows(program, eqs, flows, checked).subset_of(flows),
{
}

/// A flow of control is never pruned.
pub proof fn lemma_prune_keeps_control(
    program: &Program,
    eqs: Seq<EquationView>,
    flows: Set<FlowView>,
    checked: Set<Ends>,
    x: NodeView,
    y: NodeView,
)
    requires
        flows.contains((x, y, EdgeType::Control)),
    ensures
        pruned_flows(program, eqs, flows, checked).contains((x, y, EdgeType::Control)),
{
}

/// The call at the innermost point of a location, if the program has it.
pub fn get_call<'a>(program: &'a Program, gli: &GlobalLocationInterner, loc: GlobalLocation) -> (r:
    Option<&'a Call>)
    requires
        gli.wf(),
        gli.valid(loc),
    ensures
        r matches Some(c) ==> called(program, gli.chain(loc)) == Some(*c),
        r is None ==> called(program, gli.chain(loc)) is None,
{
    proof {
        gli.lemma_chain_head(loc);
    }
    let (location, function) = loc.innermost_location_and_body(gli);
    if function < program.bodies.len() {
        match program.bodies[function].call_at(location) {
            Some(i) => Some(&program.bodies[function].calls[i].1),
            None => None,
        }
    } else {
        None
    }
}

/// A copy of the chain.
pub fn copy_links(chain: &Vec<Link>) -> (r: Vec<Link>)
    ensures
        r@ == chain@,
{
    let mut r: Vec<Link> = Vec::new();
    let mut i: usize = 0;
    while i < chain.len()
        invariant
            i <= chain.len(),
            r@ == chain@.take(i as int),
        decreases chain.len() - i,
    {
        r.push(chain[i]);
        proof {
            assert(chain@.take(i as int + 1) =~= chain@.take(i as int).push(chain@[i as int]));
        }
        i = i + 1;
    }
    proof {
        assert(chain@.take(chain.len() as int) =~= chain@);
    }
    r
}

/// The variable that a node reads for the argument at position `idx`.
pub fn node_to_local(program: &Program, gli: &GlobalLocationInterner, node: Node, idx: u32) -> (r:
    Option<GlobalLocal>)
    requires
        gli.wf(),
        node.valid(gli),
    ensures
        r matches Some(l) ==> node_local(program, node.view(gli), idx) == Some(l@),
        r is None ==> node_local(program, node.view(gli), idx) is None,
{
    match node {
        Node::Return => Some(GlobalLocal::at_root(RETURN_PLACE)),
        Node::Argument(a) => Some(GlobalLocal::at_root(arg_num_to_local(a))),
        Node::Call(loc, _) => {
            match get_call(program, gli, loc) {
                Some(call) => {
                    if (idx as usize) < call.arguments.len() {
                        match &call.arguments[idx as usize] {
                            Some(arg) => Some(GlobalLocal::relative(arg.local, loc.call_stack(gli))),
                            None => None,
                        }
                    } else {
                        None
                    }
                },
                None => None,
            }
        },
    }
}

/// The variables through which a source hands on its value.
pub fn locals_of_source(program: &Program, gli: &GlobalLocationInterner, node: Node) -> (r: Option<
    Vec<GlobalLocal>,
>)
    requires
        gli.wf(),
        node.valid(gli),
    ensures
        r matches Some(v) ==> source_locals(program, node.view(gli)) == Some(base_views(v@)),
        r is None ==> source_locals(program, node.view(gli)) is None,
{
    match node {
        Node::Return => None,
        Node::Argument(a) => {
            let mut v: Vec<GlobalLocal> = Vec::new();
            v.push(GlobalLocal::at_root(arg_num_to_local(a)));
            proof {
                assert(base_views(v@) =~= set![root_local(argument_local(a))]) by {
                    assert(v@[0]@ == root_local(argument_local(a)));
                }
            }
            Some(v)
        },
        Node::Call(loc, _) => {
            match get_call(program, gli, loc) {
                Some(call) => {
                    let mut locals = call.argument_locals();
                    match call.return_to {
                        Some(r) => {
                            locals.push(r);
                        },
                        None => {},
                    }
                    let stack = loc.call_stack(gli);
                    let mut v: Vec<GlobalLocal> = Vec::new();
                    let mut i: usize = 0;
                    while i < locals.len()
                        invariant
                            i <= locals.len(),
                            v.len() == i,
                            forall|k: int|
                                0 <= k < i ==> (#[trigger] v[k])@ == (GlobalLocalView {
                                    local: locals[k],
                                    location: stack@,
                                }),
                        decreases locals.len() - i,
                    {
                        v.push(GlobalLocal::relative(locals[i], copy_links(&stack)));
                        i = i + 1;
                    }
                    proof {
                        let want = Set::new(
                            |l: GlobalLocalView|
                                l.location == stack@ && call_locals(*call).contains(l.local),
                        );
                        assert(locals@ == call_locals(*call));
                        assert forall|l: GlobalLocalView| base_views(v@).contains(l)
                            == want.contains(l) by {
                            if base_views(v@).contains(l) {
                                let k = choose|k: int| 0 <= k < v.len() && (#[trigger] v@[k])@ == l;
                                assert(locals@[k] == l.local);
                            }
                            if want.contains(l) {
                                let k = choose|k: int|
                                    0 <= k < locals.len() && locals@[k] == l.local;
                                assert(v@[k]@ == l);
                            }
                        }
                        assert(base_views(v@) =~= want);
                    }
                    Some(v)
                },
                None => None,
            }
        },
    }
}

/// Whether an earlier pass has checked the flows from `from` to `to`.
pub fn edge_has_been_pruned_before(gli: &GlobalLocationInterner, from: Node, to: Node) -> (r: bool)
    requires
        gli.wf(),
        from.valid(gli),
        to.valid(gli),
    ensures
        r == pruned_before(from.view(gli), to.view(gli)),
{
    match (to, from) {
        (Node::Call(c1, _), Node::Call(c2, _)) => {
            proof {
                gli.lemma_chain_head(c1);
                gli.lemma_chain_head(c2);
            }
            let a = c1.outermost(gli);
            let b = c2.outermost(gli);
            a.function == b.function && a.location == b.location
        },
        (Node::Call(c, _), _) => c.is_at_root(gli),
        (_, Node::Call(c, _)) => c.is_at_root(gli),
        _ => true,
    }
}

/// The ends of the edges of the graph that no earlier pass has checked.
pub fn find_prunable_edges(gli: &GlobalLocationInterner, g: &InlinedGraph) -> (r: Vec<(Node, Node)>)
    requires
        gli.wf(),
        g.wf(gli),
    ensures
        ends_valid(gli, r@),
        listed_ends(gli, r@) == prunable(g.view(gli).graph.flows),
{
    let edges = g.graph.all_edges();
    let ghost flows = g.graph.flows(gli);
    let mut r: Vec<(Node, Node)> = Vec::new();
    let mut i: usize = 0;
    while i < edges.len()
        invariant
            i <= edges.len(),
            gli.wf(),
            g.wf(gli),
            edges@.to_set() == g.graph.edges().dom(),
            ends_valid(gli, r@),
            forall|k: int|
                0 <= k < r.len() ==> g.graph.has_edge((#[trigger] r[k]).0, r[k].1) && !pruned_before(
                    r[k].0.view(gli),
                    r[k].1.view(gli),
                ),
            forall|k: int|
                0 <= k < i && !pruned_before(
                    (#[trigger] edges[k]).0.view(gli),
                    edges[k].1.view(gli),
                ) ==> r@.contains(edges[k]),
        decreases edges.len() - i,
    {
        let (from, to) = edges[i];
        proof {
            assert(edges@.to_set().contains(edges[i as int]));
            g.graph.lemma_endpoints(from, to);
        }
        if !edge_has_been_pruned_before(gli, from, to) {
            let ghost before = r@;
            r.push((from, to));
            proof {
                assert forall|k: int|
                    0 <= k < i + 1 && !pruned_before(
                        (#[trigger] edges[k]).0.view(gli),
                        edges[k].1.view(gli),
                    ) implies r@.contains(edges[k]) by {
                    if k < i {
                        let j = choose|j: int| 0 <= j < before.len() && before[j] == edges[k];
                        assert(r@[j] == edges[k]);
                    } else {
                        assert(r@[r.len() - 1] == edges[k]);
                    }
                }
            }
        }
        i = i + 1;
    }
    proof {
        let want = prunable(flows);
        assert forall|e: Ends| listed_ends(gli, r@).contains(e) == want.contains(e) by {
            if listed_ends(gli, r@).contains(e) {
                let k = choose|k: int|
                    0 <= k < r.len() && e == ((#[trigger] r@[k]).0.view(gli), r@[k].1.view(gli));
                let a = r@[k].0;
                let b = r@[k].1;
                g.graph.lemma_endpoints(a, b);
                let types = g.graph.edges()[(a, b)].types();
                assert(!(types =~= Set::<EdgeType>::empty()));
                let ty = choose|ty: EdgeType| types.contains(ty);
                g.graph.lemma_flow_view(gli, a, b, ty);
                assert(flows.contains((e.0, e.1, ty)));
            }
            if want.contains(e) {
                let ty = choose|ty: EdgeType| flows.contains((e.0, e.1, ty));
                Node::lemma_found(gli, e.0);
                Node::lemma_found(gli, e.1);
                let a = Node::find(gli, e.0)->0;
                let b = Node::find(gli, e.1)->0;
                assert(edges@.to_set().contains((a, b)));
                let k = choose|k: int| 0 <= k < edges.len() && edges@[k] == (a, b);
                assert(r@.contains(edges@[k]));
                let j = choose|j: int| 0 <= j < r.len() && r@[j] == (a, b);
                assert(e == (r@[j].0.view(gli), r@[j].1.view(gli)));
            }
        }
        assert(listed_ends(gli, r@) =~= want);
    }
    r
}

/// Checks the flows from `from` to `to` against the equations and takes out
/// those that are not plausible.
fn prune_edge(
    program: &Program,
    gli: &GlobalLocationInterner,
    g: &mut InlinedGraph,
    from: Node,
    to: Node,
)
    requires
        gli.wf(),
        old(g).wf(gli),
        from.valid(gli),
        to.valid(gli),
    ensures
        final(g).wf(gli),
        final(g).view(gli).equations == old(g).view(gli).equations,
        final(g).view(gli).num_inlined == old(g).view(gli).num_inlined,
        final(g).view(gli).max_call_stack_depth == old(g).view(gli).max_call_stack_depth,
        final(g).view(gli).graph.nodes == old(g).view(gli).graph.nodes,
        final(g).view(gli).graph.flows == pruned_flows(
            program,
            old(g).view(gli).equations,
            old(g).view(gli).graph.flows,
            set![(from.view(gli), to.view(gli))],
        ),
{
    let ghost flows = g.graph.flows(gli);
    let ghost eqs = g.view(gli).equations;
    let ghost fv = from.view(gli);
    let ghost tv = to.view(gli);
    let weight = match g.graph.edge_weight(from, to) {
        Some(w) => w,
        None => {
            proof {
                assert forall|f: FlowView|
                    flows.contains(f) == pruned_flows(program, eqs, flows, set![(fv, tv)]).contains(
                        f,
                    ) by {
                    if flows.contains(f) && f.0 == fv && f.1 == tv {
                        g.graph.lemma_flow_view(gli, from, to, f.2);
                    }
                }
                assert(flows =~= pruned_flows(program, eqs, flows, set![(fv, tv)]));
            }
            return ;
        },
    };
    let targets = locals_of_source(program, gli, from);
    let mut w = weight;
    let mut idx: u32 = 0;
    while idx < MAX_ARGUMENTS
        invariant
            idx <= MAX_ARGUMENTS,
            gli.wf(),
            from.valid(gli),
            to.valid(gli),
            fv == from.view(gli),
            tv == to.view(gli),
            eqs == g.view(gli).equations,
            targets matches Some(v) ==> source_locals(program, fv) == Some(base_views(v@)),
            targets is None ==> source_locals(program, fv) is None,
            forall|ty: EdgeType|
                w.types().contains(ty) == (weight.types().contains(ty) && (ty matches EdgeType::Data(
                    i,
                ) ==> i >= idx || plausible(program, eqs, (fv, tv, ty)))),
        decreases MAX_ARGUMENTS - idx,
    {
        let ghost before = w;
        if w.has_type(EdgeType::Data(idx)) {
            let keep = match (node_to_local(program, gli, to, idx), &targets) {
                (Some(l), Some(v)) => solve_reachable(&g.equations, &l, v),
                _ => true,
            };
            if !keep {
                w.remove_type(EdgeType::Data(idx));
            }
        }
        idx = idx + 1;
    }
    proof {
        assert forall|ty: EdgeType|
            w.types().contains(ty) == (weight.types().contains(ty) && plausible(
                program,
                eqs,
                (fv, tv, ty),
            )) by {
            if weight.types().contains(ty) {
                weight.lemma_representable(ty);
            }
        }
        assert(w.types().subset_of(weight.types()));
    }
    g.graph.set_weight_at(gli, from, to, w);
    proof {
        let want = pruned_flows(program, eqs, flows, set![(fv, tv)]);
        assert forall|f: FlowView| g.graph.flows(gli).contains(f) == want.contains(f) by {
            if flows.contains(f) && f.0 == fv && f.1 == tv {
                old(g).graph.lemma_flow_view(gli, from, to, f.2);
            }
        }
        assert(g.graph.flows(gli) =~= want);
    }
}

impl InlinedGraph {
    /// Checks the flows between the listed ends against the equations of
    /// the graph, and takes out those that are not plausible. For a flow into
    /// the argument at some position of the target, the equations are asked
    /// whether the variable that the target reads for that argument can be
    /// reached from a variable that the source reads or writes. No flow of
    /// the graph may start at the return value, which holds of every graph
    /// that the inliner makes.
    pub fn prune_impossible_edges(
        &mut self,
        program: &Program,
        gli: &GlobalLocationInterner,
        edges_to_prune: &Vec<(Node, Node)>,
    )
        requires
            gli.wf(),
            old(self).wf(gli),
            ends_valid(gli, edges_to_prune@),
            no_return_source(old(self).view(gli).graph.flows),
        ensures
            final(self).wf(gli),
            no_return_source(final(self).view(gli).graph.flows),
            final(self).view(gli).equations == old(self).view(gli).equations,
            final(self).view(gli).num_inlined == old(self).view(gli).num_inlined,
            final(self).view(gli).max_call_stack_depth == old(self).view(gli).max_call_stack_depth,
            final(self).view(gli).graph.nodes == old(self).view(gli).graph.nodes,
            final(self).view(gli).graph.flows == pruned_flows(
                program,
                old(self).view(gli).equations,
                old(self).view(gli).graph.flows,
                listed_ends(gli, edges_to_prune@),
            ),
    {
        let ghost flows = self.graph.flows(gli);
        let ghost eqs = self.view(gli).equations;
        let mut k: usize = 0;
        proof {
            assert(listed_ends(gli, edges_to_prune@.take(0)) =~= Set::<Ends>::empty());
            assert(flows =~= pruned_flows(program, eqs, flows, Set::<Ends>::empty()));
        }
        while k < edges_to_prune.len()
            invariant
                k <= edges_to_prune.len(),
                gli.wf(),
                self.wf(gli),
                ends_valid(gli, edges_to_prune@),
                self.view(gli).equations == eqs,
                self.view(gli).num_inlined == old(self).view(gli).num_inlined,
                self.view(gli).max_call_stack_depth == old(self).view(gli).max_call_stack_depth,
                self.view(gli).graph.nodes == old(self).view(gli).graph.nodes,
                self.graph.flows(gli) == pruned_flows(
                    program,
                    eqs,
                    flows,
                    listed_ends(gli, edges_to_prune@.take(k as int)),
                ),
            decreases edges_to_prune.len() - k,
        {
            let (from, to) = edges_to_prune[k];
            let ghost sofar = listed_ends(gli, edges_to_prune@.take(k as int));
            prune_edge(program, gli, self, from, to);
            proof {
                let e: Ends = (from.view(gli), to.view(gli));
                crate::splice::lemma_listed_push(gli, edges_to_prune@.take(k as int), (from, to));
                assert(edges_to_prune@.take(k as int + 1) =~= edges_to_prune@.take(k as int).push(
                    (from, to),
                ));
                let next = listed_ends(gli, edges_to_prune@.take(k as int + 1));
                assert(next == sofar.insert(e));
                assert forall|f: FlowView|
                    pruned_flows(
                        program,
                        eqs,
                        pruned_flows(program, eqs, flows, sofar),
                        set![e],
                    ).contains(f) == pruned_flows(program, eqs, flows, next).contains(f) by {}
                assert(self.graph.flows(gli) =~= pruned_flows(program, eqs, flows, next));
            }
            k = k + 1;
        }
        proof {
            assert(edges_to_prune@.take(edges_to_prune.len() as int) =~= edges_to_prune@);
        }
    }
}

} // verus!
