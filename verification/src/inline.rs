//! Flow graphs of whole procedures.
//!
//! The graph of a procedure is made from its summary: a node for the return
//! value, for each formal argument and for each call, and an edge wherever
//! the summary records a dependency. The places that the procedure equates
//! come along as equations.

use crate::algebra::{equality_views, Base, Equality, EqualityView, TermView};
use crate::edge::{Edge, EdgeType};
use crate::global_location::{BodyId, GlobalLocationInterner, Link, Location};
use crate::graph::{edge_flows, flow_nodes, DefId, FlowView, FlowGraph, Node, NodeView};
use crate::regal::{Body, Local, Target};
use vstd::prelude::*;

verus! {

/// The value of a [`GlobalLocal`].
pub struct GlobalLocalView {
    /// The variable.
    pub local: Local,
    /// The calls through which the procedure of the variable was entered,
    /// outermost first. Empty for a variable of the procedure whose graph is
    /// being made.
    pub location: Seq<Link>,
}

/// A variable of some procedure, as seen from the procedure whose graph is
/// being made.
#[derive(Debug)]
pub struct GlobalLocal {
    pub(crate) local: Local,
    pub(crate) location: Vec<Link>,
}

impl View for GlobalLocal {
    type V = GlobalLocalView;

    open(crate) spec fn view(&self) -> GlobalLocalView {
        GlobalLocalView { local: self.local, location: self.location@ }
    }
}

impl GlobalLocal {
    /// A variable of the procedure whose graph is being made.
    pub fn at_root(local: Local) -> (r: Self)
        ensures
            r@ == (GlobalLocalView { local, location: Seq::empty() }),
    {
        GlobalLocal { local, location: Vec::new() }
    }

    /// A variable of the procedure that was entered through the calls of
    /// `location`.
    pub fn relative(local: Local, location: Vec<Link>) -> (r: Self)
        ensures
            r@ == (GlobalLocalView { local, location: location@ }),
    {
        GlobalLocal { local, location }
    }

    /// The variable.
    pub fn local(&self) -> (l: Local)
        ensures
            l == self@.local,
    {
        self.local
    }

    /// The calls through which the procedure of the variable was entered.
    pub fn location(&self) -> (l: &Vec<Link>)
        ensures
            l@ == self@.location,
    {
        &self.location
    }

    /// The same variable, seen from the caller of the procedure whose graph
    /// is being made, which it calls at `call_site`.
    pub fn relativize(&self, call_site: Link) -> (r: Self)
        ensures
            r@ == (GlobalLocalView { local: self@.local, location: seq![call_site] + self@.location }),
    {
        let mut location: Vec<Link> = Vec::new();
        location.push(call_site);
        let mut i: usize = 0;
        while i < self.location.len()
            invariant
                i <= self.location.len(),
                location@ == seq![call_site] + self.location@.take(i as int),
            decreases self.location.len() - i,
        {
            location.push(self.location[i]);
            proof {
                assert(self.location@.take(i as int + 1) =~= self.location@.take(i as int).push(
                    self.location@[i as int],
                ));
                assert(location@ =~= seq![call_site] + self.location@.take(i as int + 1));
            }
            i = i + 1;
        }
        proof {
            assert(self.location@.take(self.location.len() as int) =~= self.location@);
        }
        GlobalLocal { local: self.local, location }
    }
}

impl Base for GlobalLocal {
    fn same(&self, other: &Self) -> (r: bool) {
        if self.local != other.local || self.location.len() != other.location.len() {
            return false;
        }
        let mut i: usize = 0;
        while i < self.location.len()
            invariant
                i <= self.location.len(),
                self.location.len() == other.location.len(),
                forall|j: int| 0 <= j < i ==> self.location[j] == other.location[j],
            decreases self.location.len() - i,
        {
            if self.location[i] != other.location[i] {
                return false;
            }
            i = i + 1;
        }
        proof {
            assert(self.location@ =~= other.location@);
        }
        true
    }

    fn duplicate(&self) -> (r: Self) {
        let mut location: Vec<Link> = Vec::new();
        let mut i: usize = 0;
        while i < self.location.len()
            invariant
                i <= self.location.len(),
                location@ == self.location@.take(i as int),
            decreases self.location.len() - i,
        {
            location.push(self.location[i]);
            proof {
                assert(self.location@.take(i as int + 1) =~= self.location@.take(i as int).push(
                    self.location@[i as int],
                ));
            }
            i = i + 1;
        }
        proof {
            assert(self.location@.take(self.location.len() as int) =~= self.location@);
        }
        GlobalLocal { local: self.local, location }
    }
}

/// An equation between variables.
pub type Equation = Equality<GlobalLocal>;

/// The value of an [`Equation`].
pub type EquationView = EqualityView<GlobalLocalView>;

/// The nodes and the flows of a graph, with the chains of all locations
/// written out.
pub struct GraphView {
    pub nodes: Set<NodeView>,
    pub flows: Set<FlowView>,
}

/// The value of an [`InlinedGraph`].
pub struct InlinedGraphView {
    pub graph: GraphView,
    pub equations: Seq<EquationView>,
    pub num_inlined: usize,
    pub max_call_stack_depth: usize,
}

/// The flow graph of a procedure, the places that the procedure and its
/// inlined callees equate, and how much was inlined.
pub struct InlinedGraph {
    pub(crate) graph: FlowGraph,
    pub(crate) equations: Vec<Equation>,
    pub(crate) num_inlined: usize,
    pub(crate) max_call_stack_depth: usize,
}

/// The node of the call at `location` of the procedure `body_id`.
pub open spec fn call_node(body_id: BodyId, location: Location, function: DefId) -> NodeView {
    NodeView::Call(seq![Link { function: body_id, location }], function)
}

/// The node that a dependency of the procedure `body_id` comes from.
pub open spec fn target_node(body: &Body, body_id: BodyId, t: Target) -> NodeView {
    match t {
        Target::Call(c) => call_node(body_id, c, body.function_at(c)),
        Target::Argument(a) => NodeView::Argument(a),
    }
}

/// The flows from each of the dependencies to the node `to`, in the way
/// `ty`.
pub open spec fn dep_flows(
    body: &Body,
    body_id: BodyId,
    deps: Seq<Target>,
    to: NodeView,
    ty: EdgeType,
) -> Set<FlowView> {
    Set::new(
        |f: FlowView|
            exists|k: int|
                0 <= k < deps.len() && f == (target_node(body, body_id, #[trigger] deps[k]), to, ty),
    )
}

/// The flows into the first `j` arguments of the call at position `i`.
pub open spec fn argument_flows(body: &Body, body_id: BodyId, i: int, j: nat) -> Set<FlowView>
    decreases j,
{
    if j == 0 {
        Set::empty()
    } else {
        let before = argument_flows(body, body_id, i, (j - 1) as nat);
        match body.calls[i].1.arguments[j - 1] {
            Some(a) => before.union(
                dep_flows(
                    body,
                    body_id,
                    a.dependencies@,
                    call_node(body_id, body.calls[i].0, body.calls[i].1.function),
                    EdgeType::Data((j - 1) as u32),
                ),
            ),
            None => before,
        }
    }
}

/// The flows into the call at position `i`: into its arguments and into its
/// control flow.
pub open spec fn call_flows(body: &Body, body_id: BodyId, i: int) -> Set<FlowView> {
    argument_flows(body, body_id, i, body.calls[i].1.arguments.len() as nat).union(
        dep_flows(
            body,
            body_id,
            body.calls[i].1.ctrl_deps@,
            call_node(body_id, body.calls[i].0, body.calls[i].1.function),
            EdgeType::Control,
        ),
    )
}

/// The flows into the first `n` calls.
pub open spec fn calls_flows(body: &Body, body_id: BodyId, n: nat) -> Set<FlowView>
    decreases n,
{
    if n == 0 {
        Set::empty()
    } else {
        calls_flows(body, body_id, (n - 1) as nat).union(call_flows(body, body_id, n - 1))
    }
}

/// The flows into the first `n` formal arguments: what the procedure
/// leaves in them.
pub open spec fn return_arg_flows(body: &Body, body_id: BodyId, n: nat) -> Set<FlowView>
    decreases n,
{
    if n == 0 {
        Set::empty()
    } else {
        return_arg_flows(body, body_id, (n - 1) as nat).union(
            dep_flows(
                body,
                body_id,
                body.return_arg_deps[n - 1]@,
                NodeView::Argument((n - 1) as u32),
                EdgeType::Data(0),
            ),
        )
    }
}

/// The flows that the summary of a procedure records.
pub open spec fn body_flows(body: &Body, body_id: BodyId) -> Set<FlowView> {
    calls_flows(body, body_id, body.calls.len() as nat).union(
        dep_flows(body, body_id, body.return_deps@, NodeView::Return, EdgeType::Data(0)),
    ).union(return_arg_flows(body, body_id, body.return_arg_deps.len() as nat))
}

/// An equation of a procedure's summary, between variables of the procedure
/// whose graph is being made.
pub open spec fn global_equation(e: EqualityView<Local>) -> EquationView {
    EqualityView {
        lhs: TermView {
            base: GlobalLocalView { local: e.lhs.base, location: Seq::empty() },
            terms: e.lhs.terms,
        },
        rhs: TermView {
            base: GlobalLocalView { local: e.rhs.base, location: Seq::empty() },
            terms: e.rhs.terms,
        },
    }
}

/// The equations of a procedure's summary, between variables of the
/// procedure whose graph is being made.
pub open spec fn global_equations(eqs: Seq<EqualityView<Local>>) -> Seq<EquationView> {
    Seq::new(eqs.len(), |i: int| global_equation(eqs[i]))
}

/// The nodes of the first `n` calls of the summary.
pub open spec fn call_nodes(body: &Body, body_id: BodyId, n: nat) -> Set<NodeView> {
    Set::new(
        |v: NodeView|
            exists|k: int|
                0 <= k < n && v == call_node(
                    body_id,
                    (#[trigger] body.calls[k]).0,
                    body.calls[k].1.function,
                ),
    )
}

/// The nodes of the first `n` formal arguments.
pub open spec fn argument_nodes(n: nat) -> Set<NodeView> {
    Set::new(|v: NodeView| v matches NodeView::Argument(i) && i < n)
}

/// The nodes of the graph that the summary of the procedure `body_id`
/// describes: the return node, a node for every call of the summary, a node
/// for every formal argument, and the ends of the flows.
pub open spec fn body_nodes(body: &Body, body_id: BodyId) -> Set<NodeView> {
    flow_nodes(body_flows(body, body_id)).insert(NodeView::Return).union(
        call_nodes(body, body_id, body.calls.len() as nat),
    ).union(argument_nodes(body.return_arg_deps.len() as nat))
}

/// The graph that the summary of the procedure `body_id` describes: the
/// return node, a node for every call and for every formal argument, the
/// flows of the summary with the nodes at their ends, and the equations of
/// the summary. Nothing is inlined in it.
pub open spec fn body_graph(body: &Body, body_id: BodyId) -> InlinedGraphView {
    InlinedGraphView {
        graph: GraphView {
            nodes: body_nodes(body, body_id),
            flows: body_flows(body, body_id),
        },
        equations: global_equations(equality_views(body.equations@)),
        num_inlined: 0,
        max_call_stack_depth: 0,
    }
}

/// The equations of a summary, between variables of the procedure whose
/// graph is being made.
pub fn to_global_equations(eqs: &Vec<Equality<Local>>) -> (r: Vec<Equation>)
    ensures
        equality_views(r@) == global_equations(equality_views(eqs@)),
{
    let mut r: Vec<Equation> = Vec::new();
    let mut i: usize = 0;
    while i < eqs.len()
        invariant
            i <= eqs.len(),
            r.len() == i,
            forall|j: int| 0 <= j < i ==> (#[trigger] r[j])@ == global_equation(eqs[j]@),
        decreases eqs.len() - i,
    {
        let eq = &eqs[i];
        let lhs = GlobalLocal::at_root(*eq.lhs().base());
        let rhs = GlobalLocal::at_root(*eq.rhs().base());
        r.push(eq.map_bases(lhs, rhs));
        i = i + 1;
    }
    proof {
        assert(equality_views(r@) =~= global_equations(equality_views(eqs@)));
    }
    r
}

/// The node that a dependency of the procedure `body_id` comes from.
fn target_to_node(gli: &mut GlobalLocationInterner, body: &Body, body_id: BodyId, t: Target) -> (n:
    Node)
    requires
        old(gli).wf(),
        t matches Target::Call(c) ==> body.position(c) is Some,
    ensures
        final(gli).wf(),
        final(gli).extends(old(gli)),
        n.valid(final(gli)),
        n.view(final(gli)) == target_node(body, body_id, t),
{
    match t {
        Target::Call(c) => {
            let i = body.call_at(c).unwrap();
            Node::Call(gli.globalize_location(c, body_id), body.calls[i].1.function)
        },
        Target::Argument(a) => Node::Argument(a),
    }
}

/// Puts into the graph a flow of type `ty` from each of the dependencies to
/// the node `to`.
fn add_dep_edges(
    g: &mut FlowGraph,
    gli: &mut GlobalLocationInterner,
    body: &Body,
    body_id: BodyId,
    to: Node,
    ty: EdgeType,
    deps: &Vec<Target>,
)
    requires
        old(gli).wf(),
        old(g).wf(),
        old(g).valid(old(gli)),
        old(g).no_empty_edges(),
        to.valid(old(gli)),
        ty.representable(),
        body.targets_known(deps@),
    ensures
        final(gli).wf(),
        final(gli).extends(old(gli)),
        final(g).wf(),
        final(g).valid(final(gli)),
        final(g).no_empty_edges(),
        final(g).flows(final(gli)) == old(g).flows(old(gli)).union(
            dep_flows(body, body_id, deps@, to.view(old(gli)), ty),
        ),
        final(g).node_views(final(gli)) == old(g).node_views(old(gli)).union(
            flow_nodes(dep_flows(body, body_id, deps@, to.view(old(gli)), ty)),
        ),
{
    let ghost to_view = to.view(gli);
    let mut k: usize = 0;
    proof {
        assert(dep_flows(body, body_id, deps@.take(0), to_view, ty) =~= Set::<FlowView>::empty());
        assert(flow_nodes(Set::<FlowView>::empty()) =~= Set::<NodeView>::empty());
        assert(g.flows(gli) =~= g.flows(gli).union(Set::<FlowView>::empty()));
        assert(g.node_views(gli) =~= g.node_views(gli).union(Set::<NodeView>::empty()));
    }
    while k < deps.len()
        invariant
            k <= deps.len(),
            gli.wf(),
            gli.extends(old(gli)),
            g.wf(),
            g.valid(gli),
            g.no_empty_edges(),
            to.valid(gli),
            to.view(gli) == to_view,
            to_view == to.view(old(gli)),
            ty.representable(),
            body.targets_known(deps@),
            g.flows(gli) == old(g).flows(old(gli)).union(
                dep_flows(body, body_id, deps@.take(k as int), to_view, ty),
            ),
            g.node_views(gli) == old(g).node_views(old(gli)).union(
                flow_nodes(dep_flows(body, body_id, deps@.take(k as int), to_view, ty)),
            ),
        decreases deps.len() - k,
    {
        let ghost gli_before = *gli;
        let ghost g_before = *g;
        let from = target_to_node(gli, body, body_id, deps[k]);
        proof {
            g.lemma_extends(gli, &gli_before);
            to.lemma_extends_view(gli, &gli_before);
        }
        let mut weight = Edge::empty();
        weight.add_type(ty);
        g.add_weighted_edge(gli, from, to, weight);
        proof {
            let before = dep_flows(body, body_id, deps@.take(k as int), to_view, ty);
            let after = dep_flows(body, body_id, deps@.take(k as int + 1), to_view, ty);
            let f0: FlowView = (target_node(body, body_id, deps@[k as int]), to_view, ty);
            assert(edge_flows(from.view(gli), to.view(gli), weight.types()) =~= set![f0]);
            assert(weight.types().contains(ty));
            assert forall|f: FlowView| after.contains(f) == before.insert(f0).contains(f) by {
                if after.contains(f) {
                    let j = choose|j: int|
                        0 <= j < deps@.take(k as int + 1).len() && f == (
                            target_node(body, body_id, #[trigger] deps@.take(k as int + 1)[j]),
                            to_view,
                            ty,
                        );
                    if j < k {
                        assert(deps@.take(k as int)[j] == deps@.take(k as int + 1)[j]);
                    }
                }
                if before.contains(f) {
                    let j = choose|j: int|
                        0 <= j < deps@.take(k as int).len() && f == (
                            target_node(body, body_id, #[trigger] deps@.take(k as int)[j]),
                            to_view,
                            ty,
                        );
                    assert(deps@.take(k as int + 1)[j] == deps@.take(k as int)[j]);
                }
                if f == f0 {
                    assert(deps@.take(k as int + 1)[k as int] == deps@[k as int]);
                }
            }
            assert(after =~= before.insert(f0));
            assert(g.flows(gli) =~= old(g).flows(old(gli)).union(after));
            assert(flow_nodes(after) =~= flow_nodes(before).insert(f0.0).insert(f0.1)) by {
                assert forall|v: NodeView|
                    flow_nodes(after).contains(v) == flow_nodes(before).insert(f0.0).insert(
                        f0.1,
                    ).contains(v) by {
                    if flow_nodes(after).contains(v) {
                        let f = choose|f: FlowView| #[trigger]
                            after.contains(f) && (f.0 == v || f.1 == v);
                        if f != f0 {
                            assert(before.contains(f));
                        }
                    }
                    if flow_nodes(before).contains(v) {
                        let f = choose|f: FlowView| #[trigger]
                            before.contains(f) && (f.0 == v || f.1 == v);
                        assert(after.contains(f));
                    }
                    if v == f0.0 || v == f0.1 {
                        assert(after.contains(f0));
                    }
                }
            }
            assert(g.node_views(gli) =~= old(g).node_views(old(gli)).union(flow_nodes(after)));
        }
        k = k + 1;
    }
    proof {
        assert(deps@.take(deps.len() as int) =~= deps@);
    }
}

impl InlinedGraph {
    /// The invariant of the graph with respect to the interner of its
    /// locations.
    pub open(crate) spec fn wf(&self, gli: &GlobalLocationInterner) -> bool {
        &&& self.graph.wf()
        &&& self.graph.valid(gli)
        &&& self.graph.no_empty_edges()
    }

    /// The value of the graph.
    pub open(crate) spec fn view(&self, gli: &GlobalLocationInterner) -> InlinedGraphView {
        InlinedGraphView {
            graph: GraphView { nodes: self.graph.node_views(gli), flows: self.graph.flows(gli) },
            equations: equality_views(self.equations@),
            num_inlined: self.num_inlined,
            max_call_stack_depth: self.max_call_stack_depth,
        }
    }

    /// A graph keeps its invariant and its value when the interner grows.
    pub proof fn lemma_extends(
        &self,
        gli: &GlobalLocationInterner,
        before: &GlobalLocationInterner,
    )
        requires
            before.wf(),
            gli.wf(),
            gli.extends(before),
            self.wf(before),
        ensures
            self.wf(gli),
            self.view(gli) == self.view(before),
    {
        self.graph.lemma_extends(gli, before);
    }

    /// The graph itself.
    pub fn graph(&self) -> (g: &FlowGraph)
        ensures
            *g == self.graph_of(),
    {
        &self.graph
    }

    /// The graph itself.
    pub open(crate) spec fn graph_of(&self) -> FlowGraph {
        self.graph
    }

    /// The equations that came with the graph.
    pub fn equations(&self) -> (e: &Vec<Equation>)
        ensures
            forall|gli: &GlobalLocationInterner|
                equality_views(e@) == #[trigger] self.view(gli).equations,
    {
        &self.equations
    }

    /// How many calls were inlined, directly or inside inlined callees.
    pub fn inlined_functions_count(&self) -> (n: usize)
        ensures
            forall|gli: &GlobalLocationInterner| n == #[trigger] self.view(gli).num_inlined,
    {
        self.num_inlined
    }

    /// How many calls deep the deepest inlined call is nested.
    pub fn max_call_stack_depth(&self) -> (n: usize)
        ensures
            forall|gli: &GlobalLocationInterner| n == #[trigger] self.view(gli).max_call_stack_depth,
    {
        self.max_call_stack_depth
    }

    /// The graph of the procedure `body_id`, as its summary describes it.
    pub fn from_body(gli: &mut GlobalLocationInterner, body_id: BodyId, body: &Body) -> (r: Self)
        requires
            old(gli).wf(),
            body.wf(),
        ensures
            final(gli).wf(),
            final(gli).extends(old(gli)),
            r.wf(final(gli)),
            r.view(final(gli)) == body_graph(body, body_id),
    {
        let equations = to_global_equations(&body.equations);
        let mut g = FlowGraph::new();
        g.add_node(Node::Return);
        proof {
            assert(g.flows(gli) =~= Set::<FlowView>::empty());
            assert(g.node_views(gli) =~= set![NodeView::Return]);
            assert(set![NodeView::Return] =~= flow_nodes(Set::<FlowView>::empty()).insert(
                NodeView::Return,
            ));
        }
        let mut i: usize = 0;
        while i < body.calls.len()
            invariant
                i <= body.calls.len(),
                body.wf(),
                gli.wf(),
                gli.extends(old(gli)),
                g.wf(),
                g.valid(gli),
                g.no_empty_edges(),
                g.flows(gli) == calls_flows(body, body_id, i as nat),
                g.node_views(gli) == flow_nodes(calls_flows(body, body_id, i as nat)).insert(
                    NodeView::Return,
                ),
            decreases body.calls.len() - i,
        {
            let call = &body.calls[i].1;
            let ghost gli_before = *gli;
            let n = Node::Call(gli.globalize_location(body.calls[i].0, body_id), call.function);
            proof {
                g.lemma_extends(gli, &gli_before);
            }
            let ghost flows_before = g.flows(gli);
            proof {
                assert(flows_before.union(argument_flows(body, body_id, i as int, 0))
                    =~= flows_before);
            }
            let mut j: usize = 0;
            while j < call.arguments.len()
                invariant
                    j <= call.arguments.len(),
                    i < body.calls.len(),
                    call == &body.calls[i as int].1,
                    body.wf(),
                    gli.wf(),
                    gli.extends(old(gli)),
                    g.wf(),
                    g.valid(gli),
                    g.no_empty_edges(),
                    n.valid(gli),
                    n.view(gli) == call_node(body_id, body.calls[i as int].0, call.function),
                    g.flows(gli) == flows_before.union(
                        argument_flows(body, body_id, i as int, j as nat),
                    ),
                    g.node_views(gli) == flow_nodes(
                        flows_before.union(argument_flows(body, body_id, i as int, j as nat)),
                    ).insert(NodeView::Return),
                decreases call.arguments.len() - j,
            {
                match &call.arguments[j] {
                    Some(a) => {
                        let ghost gli_mid = *gli;
                        let ghost g_mid = g;
                        add_dep_edges(
                            &mut g,
                            gli,
                            body,
                            body_id,
                            n,
                            EdgeType::Data(j as u32),
                            &a.dependencies,
                        );
                        proof {
                            n.lemma_extends_view(gli, &gli_mid);
                            let added = dep_flows(
                                body,
                                body_id,
                                a.dependencies@,
                                n.view(gli),
                                EdgeType::Data(j as u32),
                            );
                            let sofar = flows_before.union(
                                argument_flows(body, body_id, i as int, j as nat),
                            );
                            assert(sofar.union(added) =~= flows_before.union(
                                argument_flows(body, body_id, i as int, (j + 1) as nat),
                            ));
                            lemma_flow_nodes_union(sofar, added);
                            assert(g.node_views(gli) =~= flow_nodes(sofar.union(added)).insert(
                                NodeView::Return,
                            ));
                        }
                    },
                    None => {},
                }
                j = j + 1;
            }
            let ghost gli_mid = *gli;
            add_dep_edges(&mut g, gli, body, body_id, n, EdgeType::Control, &call.ctrl_deps);
            proof {
                n.lemma_extends_view(gli, &gli_mid);
                let args = argument_flows(
                    body,
                    body_id,
                    i as int,
                    call.arguments.len() as nat,
                );
                let ctrl = dep_flows(
                    body,
                    body_id,
                    call.ctrl_deps@,
                    call_node(body_id, body.calls[i as int].0, call.function),
                    EdgeType::Control,
                );
                assert(flows_before.union(args).union(ctrl) =~= calls_flows(
                    body,
                    body_id,
                    (i + 1) as nat,
                ));
                lemma_flow_nodes_union(flows_before.union(args), ctrl);
                assert(g.node_views(gli) =~= flow_nodes(
                    calls_flows(body, body_id, (i + 1) as nat),
                ).insert(NodeView::Return));
            }
            i = i + 1;
        }
        let ghost calls = calls_flows(body, body_id, body.calls.len() as nat);
        let ghost ret = dep_flows(body, body_id, body.return_deps@, NodeView::Return, EdgeType::Data(0));
        add_dep_edges(&mut g, gli, body, body_id, Node::Return, EdgeType::Data(0), &body.return_deps);
        proof {
            lemma_flow_nodes_union(calls, ret);
            assert(g.node_views(gli) =~= flow_nodes(calls.union(ret)).insert(NodeView::Return));
            assert(calls.union(ret).union(return_arg_flows(body, body_id, 0)) =~= calls.union(ret));
        }
        let mut a: usize = 0;
        while a < body.return_arg_deps.len()
            invariant
                a <= body.return_arg_deps.len(),
                body.wf(),
                gli.wf(),
                gli.extends(old(gli)),
                g.wf(),
                g.valid(gli),
                g.no_empty_edges(),
                calls == calls_flows(body, body_id, body.calls.len() as nat),
                ret == dep_flows(
                    body,
                    body_id,
                    body.return_deps@,
                    NodeView::Return,
                    EdgeType::Data(0),
                ),
                g.flows(gli) == calls.union(ret).union(return_arg_flows(body, body_id, a as nat)),
                g.node_views(gli) == flow_nodes(
                    calls.union(ret).union(return_arg_flows(body, body_id, a as nat)),
                ).insert(NodeView::Return),
            decreases body.return_arg_deps.len() - a,
        {
            let ghost sofar = calls.union(ret).union(return_arg_flows(body, body_id, a as nat));
            add_dep_edges(
                &mut g,
                gli,
                body,
                body_id,
                Node::Argument(a as u32),
                EdgeType::Data(0),
                &body.return_arg_deps[a],
            );
            proof {
                let added = dep_flows(
                    body,
                    body_id,
                    body.return_arg_deps[a as int]@,
                    NodeView::Argument(a as u32),
                    EdgeType::Data(0),
                );
                assert(sofar.union(added) =~= calls.union(ret).union(
                    return_arg_flows(body, body_id, (a + 1) as nat),
                ));
                lemma_flow_nodes_union(sofar, added);
                assert(g.node_views(gli) =~= flow_nodes(sofar.union(added)).insert(
                    NodeView::Return,
                ));
            }
            a = a + 1;
        }
        let ghost flows = body_flows(body, body_id);
        let ghost ends = flow_nodes(flows).insert(NodeView::Return);
        proof {
            assert(ends.union(call_nodes(body, body_id, 0)) =~= ends);
        }
        let mut k: usize = 0;
        while k < body.calls.len()
            invariant
                k <= body.calls.len(),
                body.wf(),
                gli.wf(),
                gli.extends(old(gli)),
                g.wf(),
                g.valid(gli),
                g.no_empty_edges(),
                g.flows(gli) == flows,
                g.node_views(gli) == ends.union(call_nodes(body, body_id, k as nat)),
            decreases body.calls.len() - k,
        {
            let ghost gli_before = *gli;
            let n = Node::Call(
                gli.globalize_location(body.calls[k].0, body_id),
                body.calls[k].1.function,
            );
            proof {
                g.lemma_extends(gli, &gli_before);
            }
            g.add_node_at(gli, n);
            proof {
                assert(ends.union(call_nodes(body, body_id, k as nat)).insert(n.view(gli))
                    =~= ends.union(call_nodes(body, body_id, (k + 1) as nat)));
            }
            k = k + 1;
        }
        let ghost with_calls = ends.union(call_nodes(body, body_id, body.calls.len() as nat));
        proof {
            assert(with_calls.union(argument_nodes(0)) =~= with_calls);
        }
        let mut a: usize = 0;
        while a < body.return_arg_deps.len()
            invariant
                a <= body.return_arg_deps.len(),
                body.wf(),
                gli.wf(),
                gli.extends(old(gli)),
                g.wf(),
                g.valid(gli),
                g.no_empty_edges(),
                g.flows(gli) == flows,
                g.node_views(gli) == with_calls.union(argument_nodes(a as nat)),
            decreases body.return_arg_deps.len() - a,
        {
            g.add_node_at(gli, Node::Argument(a as u32));
            proof {
                assert(with_calls.union(argument_nodes(a as nat)).insert(
                    NodeView::Argument(a as u32),
                ) =~= with_calls.union(argument_nodes((a + 1) as nat)));
            }
            a = a + 1;
        }
        InlinedGraph { graph: g, equations, num_inlined: 0, max_call_stack_depth: 0 }
    }
}

/// The ends of the flows of two sets are the ends of the flows of either.
pub proof fn lemma_flow_nodes_union(a: Set<FlowView>, b: Set<FlowView>)
    ensures
        flow_nodes(a.union(b)) == flow_nodes(a).union(flow_nodes(b)),
{
    assert forall|v: NodeView|
        flow_nodes(a.union(b)).contains(v) == flow_nodes(a).union(flow_nodes(b)).contains(v) by {
        if flow_nodes(a.union(b)).contains(v) {
            let f = choose|f: FlowView| #[trigger] a.union(b).contains(f) && (f.0 == v || f.1 == v);
            if a.contains(f) {
                assert(flow_nodes(a).contains(v));
            } else {
                assert(b.contains(f));
                assert(flow_nodes(b).contains(v));
            }
        }
        if flow_nodes(a).contains(v) {
            let f = choose|f: FlowView| #[trigger] a.contains(f) && (f.0 == v || f.1 == v);
            assert(a.union(b).contains(f));
        }
        if flow_nodes(b).contains(v) {
            let f = choose|f: FlowView| #[trigger] b.contains(f) && (f.0 == v || f.1 == v);
            assert(a.union(b).contains(f));
        }
    }
    assert(flow_nodes(a.union(b)) =~= flow_nodes(a).union(flow_nodes(b)));
}

} // verus!
