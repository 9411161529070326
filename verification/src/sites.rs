//! Every call node of a graph that the analysis makes names the procedure
//! that the call at its location calls, so no two call nodes share a
//! location.

use crate::args::{AnalysisCtrl, InconsequentialCallRemovalPolicy};
use crate::edge::EdgeType;
use crate::flows::has_duplicate_call;
use crate::global_location::{BodyId, Link};
use crate::graph::{flow_nodes, FlowView, NodeView};
use crate::inline::{
    argument_flows, body_flows, body_graph, body_nodes, call_flows, call_node, calls_flows,
    dep_flows, return_arg_flows, target_node, GraphView, InlinedGraphView,
};
use crate::inliner::{
    action_of, dropped_view, inconsequential, inlined_view, opaque_equations, without_calls, Oracle,
};
use crate::memo::{
    callee_of, finished, graph_for, inline_calls, inlined_graph, lemma_not_started_update,
    not_started, with_equations, MemoView,
};
use crate::prune::called;
use crate::regal::{lemma_position_below, Body, Program, Target};
use crate::splice::{boundary, inlined_nodes, relativized, Ends};
use vstd::prelude::*;

verus! {

/// Whether the node, if it is a call, names the procedure that the call at
/// the innermost point of its location calls.
pub open spec fn node_known(program: &Program, v: NodeView) -> bool {
    v matches NodeView::Call(c, d) ==> (called(program, c) matches Some(call) && call.function == d)
}

/// Whether every call node names the procedure that the call at its
/// location calls.
pub open spec fn nodes_known(program: &Program, nodes: Set<NodeView>) -> bool {
    forall|v: NodeView| #[trigger] nodes.contains(v) ==> node_known(program, v)
}

/// Nodes that name the procedures of their calls do not share locations.
pub proof fn lemma_known_nodes_are_distinct(program: &Program, nodes: Set<NodeView>)
    requires
        nodes_known(program, nodes),
    ensures
        !has_duplicate_call(nodes),
{
    if has_duplicate_call(nodes) {
        let (c, d1, d2) = choose|c: Seq<Link>, d1: u64, d2: u64|
            d1 != d2 && #[trigger] nodes.contains(NodeView::Call(c, d1)) && #[trigger] nodes.contains(
                NodeView::Call(c, d2),
            );
        assert(node_known(program, NodeView::Call(c, d1)));
        assert(node_known(program, NodeView::Call(c, d2)));
    }
}

/// The node of a call of a summary names the procedure of the call.
proof fn lemma_call_node_known(program: &Program, b: BodyId, i: int)
    requires
        program.wf(),
        b < program.bodies.len(),
        0 <= i < program.bodies[b as int].calls.len(),
    ensures
        node_known(
            program,
            call_node(
                b,
                program.bodies[b as int].calls[i].0,
                program.bodies[b as int].calls[i].1.function,
            ),
        ),
        program.bodies[b as int].position(program.bodies[b as int].calls[i].0) == Some(i),
{
    let body = &program.bodies[b as int];
    let chain = seq![Link { function: b, location: body.calls[i].0 }];
    assert(chain.last() == Link { function: b, location: body.calls[i].0 });
    lemma_position_below(body.calls@, body.calls[i].0, body.calls.len() as nat);
    assert(body.wf());
    let p = body.position(body.calls[i].0);
    assert(p is Some);
    if p->0 != i {
        if p->0 < i {
            assert(body.calls[p->0].0 != body.calls[i].0);
        } else {
            assert(body.calls[i].0 != body.calls[p->0].0);
        }
    }
    assert(called(program, chain) == Some(body.calls[i].1));
}

/// The node of a dependency that names a call of the summary names the
/// procedure of that call.
proof fn lemma_target_node_known(program: &Program, b: BodyId, t: Target)
    requires
        program.wf(),
        b < program.bodies.len(),
        t matches Target::Call(c) ==> program.bodies[b as int].position(c) is Some,
    ensures
        node_known(program, target_node(&program.bodies[b as int], b, t)),
{
    let body = &program.bodies[b as int];
    match t {
        Target::Call(c) => {
            lemma_position_below(body.calls@, c, body.calls.len() as nat);
            let i = body.position(c)->0;
            lemma_call_node_known(program, b, i);
        },
        Target::Argument(_) => {},
    }
}

/// The flows from known dependencies start at nodes that name the
/// procedures of their calls, and lead to the given node.
proof fn lemma_dep_flows_known(
    program: &Program,
    b: BodyId,
    deps: Seq<Target>,
    to: NodeView,
    ty: EdgeType,
    f: FlowView,
)
    requires
        program.wf(),
        b < program.bodies.len(),
        program.bodies[b as int].targets_known(deps),
        dep_flows(&program.bodies[b as int], b, deps, to, ty).contains(f),
    ensures
        node_known(program, f.0),
        f.1 == to,
{
    let body = &program.bodies[b as int];
    let k = choose|k: int|
        0 <= k < deps.len() && f == (target_node(body, b, #[trigger] deps[k]), to, ty);
    lemma_target_node_known(program, b, deps[k]);
}

/// The flows into the first arguments of a call of a summary join nodes
/// that name the procedures of their calls.
proof fn lemma_argument_flows_known(program: &Program, b: BodyId, i: int, j: nat, f: FlowView)
    requires
        program.wf(),
        b < program.bodies.len(),
        0 <= i < program.bodies[b as int].calls.len(),
        j <= program.bodies[b as int].calls[i].1.arguments.len(),
        argument_flows(&program.bodies[b as int], b, i, j).contains(f),
    ensures
        node_known(program, f.0),
        node_known(program, f.1),
    decreases j,
{
    let body = &program.bodies[b as int];
    if j > 0 {
        assert(body.wf());
        assert(body.calls[i].1.wf(body));
        match body.calls[i].1.arguments[j - 1] {
            Some(a) => {
                if argument_flows(body, b, i, (j - 1) as nat).contains(f) {
                    lemma_argument_flows_known(program, b, i, (j - 1) as nat, f);
                } else {
                    lemma_call_node_known(program, b, i);
                    lemma_dep_flows_known(
                        program,
                        b,
                        a.dependencies@,
                        call_node(b, body.calls[i].0, body.calls[i].1.function),
                        EdgeType::Data((j - 1) as u32),
                        f,
                    );
                }
            },
            None => {
                lemma_argument_flows_known(program, b, i, (j - 1) as nat, f);
            },
        }
    }
}

/// The flows into the first calls of a summary join nodes that name the
/// procedures of their calls.
proof fn lemma_calls_flows_known(program: &Program, b: BodyId, n: nat, f: FlowView)
    requires
        program.wf(),
        b < program.bodies.len(),
        n <= program.bodies[b as int].calls.len(),
        calls_flows(&program.bodies[b as int], b, n).contains(f),
    ensures
        node_known(program, f.0),
        node_known(program, f.1),
    decreases n,
{
    let body = &program.bodies[b as int];
    if n > 0 {
        if calls_flows(body, b, (n - 1) as nat).contains(f) {
            lemma_calls_flows_known(program, b, (n - 1) as nat, f);
        } else {
            let i = n - 1;
            assert(call_flows(body, b, i).contains(f));
            assert(body.wf());
            assert(body.calls[i].1.wf(body));
            if argument_flows(body, b, i, body.calls[i].1.arguments.len() as nat).contains(f) {
                lemma_argument_flows_known(
                    program,
                    b,
                    i,
                    body.calls[i].1.arguments.len() as nat,
                    f,
                );
            } else {
                lemma_call_node_known(program, b, i);
                lemma_dep_flows_known(
                    program,
                    b,
                    body.calls[i].1.ctrl_deps@,
                    call_node(b, body.calls[i].0, body.calls[i].1.function),
                    EdgeType::Control,
                    f,
                );
            }
        }
    }
}

/// The flows into the first formal arguments of a summary start at nodes
/// that name the procedures of their calls, and lead to no call.
proof fn lemma_return_arg_flows_known(program: &Program, b: BodyId, n: nat, f: FlowView)
    requires
        program.wf(),
        b < program.bodies.len(),
        n <= program.bodies[b as int].return_arg_deps.len(),
        return_arg_flows(&program.bodies[b as int], b, n).contains(f),
    ensures
        node_known(program, f.0),
        node_known(program, f.1),
    decreases n,
{
    let body = &program.bodies[b as int];
    if n > 0 {
        if return_arg_flows(body, b, (n - 1) as nat).contains(f) {
            lemma_return_arg_flows_known(program, b, (n - 1) as nat, f);
        } else {
            assert(body.wf());
            lemma_dep_flows_known(
                program,
                b,
                body.return_arg_deps[n - 1]@,
                NodeView::Argument((n - 1) as u32),
                EdgeType::Data(0),
                f,
            );
        }
    }
}

/// Every call node of the graph that a summary describes names the
/// procedure of its call.
pub proof fn lemma_body_nodes_known(program: &Program, b: BodyId)
    requires
        program.wf(),
        b < program.bodies.len(),
    ensures
        nodes_known(program, body_nodes(&program.bodies[b as int], b)),
{
    let body = &program.bodies[b as int];
    assert forall|v: NodeView| #[trigger] body_nodes(body, b).contains(v) implies node_known(
        program,
        v,
    ) by {
        if v is Call {
            if flow_nodes(body_flows(body, b)).contains(v) {
                let f = choose|f: FlowView| #[trigger]
                    body_flows(body, b).contains(f) && (f.0 == v || f.1 == v);
                assert(body.wf());
                if calls_flows(body, b, body.calls.len() as nat).contains(f) {
                    lemma_calls_flows_known(program, b, body.calls.len() as nat, f);
                } else if return_arg_flows(body, b, body.return_arg_deps.len() as nat).contains(f) {
                    lemma_return_arg_flows_known(
                        program,
                        b,
                        body.return_arg_deps.len() as nat,
                        f,
                    );
                } else {
                    lemma_dep_flows_known(
                        program,
                        b,
                        body.return_deps@,
                        NodeView::Return,
                        EdgeType::Data(0),
                        f,
                    );
                }
            } else {
                let k = choose|k: int|
                    0 <= k < body.calls.len() && v == call_node(
                        b,
                        (#[trigger] body.calls[k]).0,
                        body.calls[k].1.function,
                    );
                lemma_call_node_known(program, b, k);
            }
        }
    }
}

/// Inlining a callee whose call nodes name the procedures of their calls
/// into a caller of which the same holds gives such a graph.
pub proof fn lemma_inlined_nodes_known(
    program: &Program,
    caller: Set<NodeView>,
    callee: Set<NodeView>,
    site: Link,
    t: NodeView,
)
    requires
        nodes_known(program, caller),
        nodes_known(program, callee),
    ensures
        nodes_known(program, inlined_nodes(caller, callee, site, t)),
{
    assert forall|v: NodeView| #[trigger]
        inlined_nodes(caller, callee, site, t).contains(v) implies node_known(program, v) by {
        if !caller.contains(v) {
            let w = choose|w: NodeView| #[trigger] callee.contains(w) && v == relativized(site, w);
            assert(node_known(program, w));
            match w {
                NodeView::Call(c, d) => {
                    assert(c.len() > 0);
                    assert((seq![site] + c).last() == c.last());
                },
                _ => {},
            }
        }
    }
}

/// Taking calls out of a graph leaves the nodes that it keeps as they were.
pub proof fn lemma_without_calls_known<O: Oracle>(
    program: &Program,
    oracle: &O,
    policy: InconsequentialCallRemovalPolicy,
    before: GraphView,
    body: &Body,
    body_id: BodyId,
    g: GraphView,
    k: nat,
)
    requires
        nodes_known(program, g.nodes),
    ensures
        nodes_known(
            program,
            without_calls(program, oracle, policy, before, body, body_id, g, k).nodes,
        ),
    decreases body.calls.len() - k,
{
    if k < body.calls.len() {
        let t = call_node(body_id, body.calls[k as int].0, body.calls[k as int].1.function);
        if inconsequential(
            program,
            oracle,
            policy,
            before,
            body_id,
            body.calls[k as int].0,
            &body.calls[k as int].1,
        ) {
            lemma_without_calls_known(
                program,
                oracle,
                policy,
                before,
                body,
                body_id,
                GraphView {
                    nodes: g.nodes.remove(t),
                    flows: crate::reduce::bypassed(g.flows, t, None),
                },
                k + 1,
            );
        } else {
            lemma_without_calls_known(program, oracle, policy, before, body, body_id, g, k + 1);
        }
    }
}

/// Reducing and pruning a graph leaves the nodes that it keeps as they
/// were.
pub proof fn lemma_finished_known<O: Oracle>(
    program: &Program,
    ctrl: &AnalysisCtrl,
    oracle: &O,
    body_id: BodyId,
    g: InlinedGraphView,
    queue: Set<Ends>,
)
    requires
        nodes_known(program, g.graph.nodes),
    ensures
        nodes_known(program, finished(program, ctrl, oracle, body_id, g, queue).graph.nodes),
{
    lemma_without_calls_known(
        program,
        oracle,
        ctrl.remove_inconsequential_calls,
        g.graph,
        &program.bodies[body_id as int],
        body_id,
        g.graph,
        0,
    );
}

/// Whether in every graph that was made every call node names the procedure
/// of its call.
pub open spec fn memo_known(program: &Program, memo: Seq<MemoView>) -> bool {
    forall|i: int|
        0 <= i < memo.len() ==> (#[trigger] memo[i] matches MemoView::Done(g) ==> nodes_known(
            program,
            g.graph.nodes,
        ))
}

/// Asking for the graph of a procedure gives a graph whose call nodes name
/// the procedures of their calls, and keeps this true of all graphs.
pub proof fn lemma_graph_for_known<O: Oracle>(
    program: &Program,
    ctrl: &AnalysisCtrl,
    oracle: &O,
    memo: Seq<MemoView>,
    b: nat,
)
    requires
        program.wf(),
        memo.len() == program.bodies.len(),
        memo_known(program, memo),
    ensures
        graph_for(program, ctrl, oracle, memo, b).0.len() == memo.len(),
        memo_known(program, graph_for(program, ctrl, oracle, memo, b).0),
        graph_for(program, ctrl, oracle, memo, b).1 matches Some(g) ==> nodes_known(
            program,
            g.graph.nodes,
        ),
    decreases not_started(memo), 0int, 0int,
{
    if b < memo.len() {
        match memo[b as int] {
            MemoView::NotStarted => {
                lemma_not_started_update(memo, b as int, MemoView::InProgress);
                let started = memo.update(b as int, MemoView::InProgress);
                assert(memo_known(program, started));
                lemma_inlined_graph_known(program, ctrl, oracle, started, b);
            },
            _ => {},
        }
    }
}

/// Making the graph of a procedure gives a graph whose call nodes name the
/// procedures of their calls, and keeps this true of all graphs.
pub proof fn lemma_inlined_graph_known<O: Oracle>(
    program: &Program,
    ctrl: &AnalysisCtrl,
    oracle: &O,
    memo: Seq<MemoView>,
    b: nat,
)
    requires
        program.wf(),
        b < program.bodies.len(),
        memo.len() == program.bodies.len(),
        memo_known(program, memo),
    ensures
        inlined_graph(program, ctrl, oracle, memo, b).0.len() == memo.len(),
        memo_known(program, inlined_graph(program, ctrl, oracle, memo, b).0),
        nodes_known(program, inlined_graph(program, ctrl, oracle, memo, b).1.graph.nodes),
    decreases not_started(memo), 2int, 0int,
{
    let start = body_graph(&program.bodies[b as int], b as usize);
    lemma_body_nodes_known(program, b as usize);
    lemma_inline_calls_known(program, ctrl, oracle, memo, b, start, Set::empty(), 0);
    let r = inline_calls(program, ctrl, oracle, memo, b, start, Set::empty(), 0);
    lemma_finished_known(program, ctrl, oracle, b as usize, r.1, r.2);
}

/// Looking at the calls of a procedure keeps the call nodes of all graphs
/// naming the procedures of their calls.
pub proof fn lemma_inline_calls_known<O: Oracle>(
    program: &Program,
    ctrl: &AnalysisCtrl,
    oracle: &O,
    memo: Seq<MemoView>,
    b: nat,
    g: InlinedGraphView,
    queue: Set<Ends>,
    k: nat,
)
    requires
        program.wf(),
        b < program.bodies.len(),
        memo.len() == program.bodies.len(),
        memo_known(program, memo),
        nodes_known(program, g.graph.nodes),
    ensures
        inline_calls(program, ctrl, oracle, memo, b, g, queue, k).0.len() == memo.len(),
        memo_known(program, inline_calls(program, ctrl, oracle, memo, b, g, queue, k).0),
        nodes_known(program, inline_calls(program, ctrl, oracle, memo, b, g, queue, k).1.graph.nodes),
    decreases not_started(memo), 1int, program.bodies[b as int].calls.len() - k,
{
    let body = &program.bodies[b as int];
    if k < body.calls.len() {
        let location = body.calls[k as int].0;
        let call = &body.calls[k as int].1;
        let site = Link { function: b as usize, location };
        let t = call_node(b as usize, location, call.function);
        if !g.graph.nodes.contains(t) {
            lemma_inline_calls_known(program, ctrl, oracle, memo, b, g, queue, k + 1);
        } else {
            match action_of(program, ctrl, oracle, call) {
                None => {
                    lemma_inline_calls_known(
                        program,
                        ctrl,
                        oracle,
                        memo,
                        b,
                        with_equations(g, opaque_equations(call)),
                        queue,
                        k + 1,
                    );
                },
                Some(action) => match callee_of(action) {
                    None => {
                        lemma_inline_calls_known(
                            program,
                            ctrl,
                            oracle,
                            memo,
                            b,
                            dropped_view(g, call, t),
                            queue,
                            k + 1,
                        );
                    },
                    Some(c) => {
                        lemma_graph_for_known(program, ctrl, oracle, memo, c.0 as nat);
                        let r = graph_for(program, ctrl, oracle, memo, c.0 as nat);
                        if not_started(r.0) <= not_started(memo) {
                            match r.1 {
                                None => {
                                    lemma_inline_calls_known(
                                        program,
                                        ctrl,
                                        oracle,
                                        r.0,
                                        b,
                                        with_equations(g, opaque_equations(call)),
                                        queue,
                                        k + 1,
                                    );
                                },
                                Some(h) => {
                                    lemma_inlined_nodes_known(
                                        program,
                                        g.graph.nodes,
                                        h.graph.nodes,
                                        site,
                                        t,
                                    );
                                    lemma_inline_calls_known(
                                        program,
                                        ctrl,
                                        oracle,
                                        r.0,
                                        b,
                                        inlined_view(g, h, call, c.1, site, t),
                                        queue.union(
                                            boundary(g.graph.flows, h.graph.flows, site, t),
                                        ),
                                        k + 1,
                                    );
                                },
                            }
                        }
                    },
                },
            }
        }
    }
}

} // verus!
