//! What holds of the analysis as a whole.

use crate::algebra::lemma_direct_equality_reachable;
use crate::args::AnalysisCtrl;
use crate::edge::EdgeType;
use crate::global_location::{BodyId, Link};
use crate::graph::{FlowView, NodeView};
use crate::inline::{call_node, EquationView, GlobalLocalView, InlinedGraphView};
use crate::inliner::{action_of, opaque_equations, same_place, Oracle};
use crate::memo::{callee_of, graph_for, inline_calls, with_equations, MemoView};
use crate::inliner::{dropped_view, inlined_view};
use crate::progress::lemma_graph_for_advances;
use crate::splice::boundary;
use crate::prune::{node_local, plausible, pruned_flows, source_locals};
use crate::regal::Program;
use crate::splice::{contribution, inlined_flows, inlined_nodes, spliced, Ends};
use vstd::prelude::*;

verus! {

/// Inlining a callee connects what fed the call to what the call fed: if
/// `x` feeds the argument at position `a` of the call `t`, the callee hands
/// its formal argument `a` on to its return value, and `t` feeds `y`, then
/// after inlining `x` feeds `y` in the way in which `t` fed it.
pub proof fn lemma_inlining_connects(
    caller: Set<FlowView>,
    callee: Set<FlowView>,
    site: Link,
    t: NodeView,
    x: NodeView,
    y: NodeView,
    a: u32,
    through: EdgeType,
    ty: EdgeType,
)
    requires
        caller.contains((x, t, EdgeType::Data(a))),
        caller.contains((t, y, ty)),
        callee.contains((NodeView::Argument(a), NodeView::Return, through)),
        x != t,
        y != t,
    ensures
        inlined_flows(caller, callee, site, t).contains((x, y, ty)),
{
    let h: FlowView = (NodeView::Argument(a), NodeView::Return, through);
    assert(contribution(caller, site, t, h.0, h.1, set![h.2]).contains((x, y, ty)));
    assert(spliced(caller, callee, site, t, (x, y, ty)));
}

/// The call that a callee was inlined at is gone: it is no node, and no
/// flow starts or ends at it.
pub proof fn lemma_inlined_call_is_elided(
    caller_nodes: Set<NodeView>,
    caller: Set<FlowView>,
    callee_nodes: Set<NodeView>,
    callee: Set<FlowView>,
    site: Link,
    t: NodeView,
)
    ensures
        !inlined_nodes(caller_nodes, callee_nodes, site, t).contains(t),
        forall|f: FlowView| #[trigger]
            inlined_flows(caller, callee, site, t).contains(f) ==> f.0 != t && f.1 != t,
{
}

/// Inlining a callee that has no calls of its own puts no call into the
/// graph of the caller.
pub proof fn lemma_callee_without_calls(
    caller_nodes: Set<NodeView>,
    callee_nodes: Set<NodeView>,
    site: Link,
    t: NodeView,
)
    requires
        forall|v: NodeView| #[trigger] callee_nodes.contains(v) ==> !(v is Call),
    ensures
        forall|v: NodeView| #[trigger]
            inlined_nodes(caller_nodes, callee_nodes, site, t).contains(v) && v is Call
                ==> caller_nodes.contains(v),
{
}

/// Asking for the graph of a procedure that is in progress gives no graph
/// and changes nothing: a recursive call is not followed.
pub proof fn lemma_recursion_is_not_followed<O: Oracle>(
    program: &Program,
    ctrl: &AnalysisCtrl,
    oracle: &O,
    memo: Seq<MemoView>,
    b: nat,
)
    requires
        b < memo.len(),
        b < program.bodies.len(),
        memo[b as int] is InProgress,
    ensures
        graph_for(program, ctrl, oracle, memo, b) == (memo, None::<InlinedGraphView>),
{
}

/// A call of a procedure that is in progress stays in the graph as a call
/// that is not inlined: looking at it changes neither the nodes nor the
/// flows nor what is known of the procedures, and it brings the equations of
/// a call that stays as it is, by which whatever the callee may write may
/// stem from any argument that it reads.
pub proof fn lemma_recursive_call_stays<O: Oracle>(
    program: &Program,
    ctrl: &AnalysisCtrl,
    oracle: &O,
    memo: Seq<MemoView>,
    b: nat,
    g: InlinedGraphView,
    queue: Set<Ends>,
    k: nat,
    c: BodyId,
)
    requires
        b < program.bodies.len(),
        k < program.bodies[b as int].calls.len(),
        g.graph.nodes.contains(
            call_node(
                b as usize,
                program.bodies[b as int].calls[k as int].0,
                program.bodies[b as int].calls[k as int].1.function,
            ),
        ),
        action_of(program, ctrl, oracle, &program.bodies[b as int].calls[k as int].1)
            matches Some(action) && callee_of(action) matches Some(callee) && callee.0 == c,
        c < memo.len(),
        c < program.bodies.len(),
        memo[c as int] is InProgress,
    ensures
        inline_calls(program, ctrl, oracle, memo, b, g, queue, k) == inline_calls(
            program,
            ctrl,
            oracle,
            memo,
            b,
            InlinedGraphView {
                graph: g.graph,
                equations: g.equations + opaque_equations(
                    &program.bodies[b as int].calls[k as int].1,
                ),
                num_inlined: g.num_inlined,
                max_call_stack_depth: g.max_call_stack_depth,
            },
            queue,
            k + 1,
        ),
{
    lemma_recursion_is_not_followed(program, ctrl, oracle, memo, c as nat);
}

/// A flow that a plain equality supports is never pruned: if one of the
/// equations says, without any operator, that the variable which the target
/// reads for the argument is a variable of the source, the flow into that
/// argument stays, whichever flows are checked.
pub proof fn lemma_direct_equality_is_never_pruned(
    program: &Program,
    eqs: Seq<EquationView>,
    flows: Set<FlowView>,
    checked: Set<Ends>,
    f: FlowView,
    position: u32,
    read: GlobalLocalView,
    written: GlobalLocalView,
    i: int,
)
    requires
        flows.contains(f),
        f.2 == EdgeType::Data(position),
        node_local(program, f.1, position) == Some(read),
        source_locals(program, f.0) matches Some(locals) && locals.contains(written),
        0 <= i < eqs.len(),
        eqs[i] == same_place(read, written) || eqs[i] == same_place(written, read),
    ensures
        plausible(program, eqs, f),
        pruned_flows(program, eqs, flows, checked).contains(f),
{
    lemma_direct_equality_reachable(eqs, i, read, written, source_locals(program, f.0)->0);
}

/// Whether the node is the node of one of the calls of the procedure `b`
/// from position `k` on.
pub open spec fn is_call_from(program: &Program, b: nat, k: nat, v: NodeView) -> bool {
    exists|i: int|
        k <= i < program.bodies[b as int].calls.len() && v == call_node(
            b as usize,
            (#[trigger] program.bodies[b as int].calls[i]).0,
            program.bodies[b as int].calls[i].1.function,
        )
}

/// A call from a later position on is a call from an earlier position on.
proof fn lemma_is_call_from_later(program: &Program, b: nat, k: nat)
    ensures
        forall|v: NodeView| is_call_from(program, b, k + 1, v) ==> is_call_from(program, b, k, v),
{
    let body = &program.bodies[b as int];
    assert forall|v: NodeView| is_call_from(program, b, k + 1, v) implies is_call_from(
        program,
        b,
        k,
        v,
    ) by {
        let i = choose|i: int|
            k + 1 <= i < body.calls.len() && v == call_node(
                b as usize,
                (#[trigger] body.calls[i]).0,
                body.calls[i].1.function,
            );
        assert(k <= i);
    }
}

/// Looking at the calls of a procedure from position `k` on keeps every
/// flow between nodes that are none of these calls.
pub proof fn lemma_inline_calls_keeps_flows<O: Oracle>(
    program: &Program,
    ctrl: &AnalysisCtrl,
    oracle: &O,
    memo: Seq<MemoView>,
    b: nat,
    g: InlinedGraphView,
    queue: Set<Ends>,
    k: nat,
    f: FlowView,
)
    requires
        b < program.bodies.len(),
        g.graph.flows.contains(f),
        !is_call_from(program, b, k, f.0),
        !is_call_from(program, b, k, f.1),
    ensures
        inline_calls(program, ctrl, oracle, memo, b, g, queue, k).1.graph.flows.contains(f),
    decreases program.bodies[b as int].calls.len() - k,
{
    let body = &program.bodies[b as int];
    if k < body.calls.len() {
        let location = body.calls[k as int].0;
        let call = &body.calls[k as int].1;
        let site = Link { function: b as usize, location };
        let t = call_node(b as usize, location, call.function);
        assert(is_call_from(program, b, k, t));
        assert(f.0 != t && f.1 != t);
        lemma_is_call_from_later(program, b, k);
        if !g.graph.nodes.contains(t) {
            lemma_inline_calls_keeps_flows(program, ctrl, oracle, memo, b, g, queue, k + 1, f);
        } else {
            match action_of(program, ctrl, oracle, call) {
                None => {
                    lemma_inline_calls_keeps_flows(
                        program,
                        ctrl,
                        oracle,
                        memo,
                        b,
                        with_equations(g, opaque_equations(call)),
                        queue,
                        k + 1,
                        f,
                    );
                },
                Some(action) => match callee_of(action) {
                    None => {
                        lemma_inline_calls_keeps_flows(
                            program,
                            ctrl,
                            oracle,
                            memo,
                            b,
                            dropped_view(g, call, t),
                            queue,
                            k + 1,
                            f,
                        );
                    },
                    Some(c) => {
                        lemma_graph_for_advances(program, ctrl, oracle, memo, c.0 as nat);
                        let r = graph_for(program, ctrl, oracle, memo, c.0 as nat);
                        match r.1 {
                            None => {
                                lemma_inline_calls_keeps_flows(
                                    program,
                                    ctrl,
                                    oracle,
                                    r.0,
                                    b,
                                    with_equations(g, opaque_equations(call)),
                                    queue,
                                    k + 1,
                                    f,
                                );
                            },
                            Some(h) => {
                                lemma_inline_calls_keeps_flows(
                                    program,
                                    ctrl,
                                    oracle,
                                    r.0,
                                    b,
                                    inlined_view(g, h, call, c.1, site, t),
                                    queue.union(boundary(g.graph.flows, h.graph.flows, site, t)),
                                    k + 1,
                                    f,
                                );
                            },
                        }
                    },
                },
            }
        }
    }
}

/// Inlining is transparent: when the call at position `k` of a procedure is
/// replaced by the graph of its callee, and `x` fed the argument at position
/// `a` of the call, the callee hands its formal argument `a` on to its return
/// value, and the call fed `y`, then once all calls of the procedure are
/// looked at `x` feeds `y` in the way in which the call fed it, if neither is
/// itself a call that is still to be looked at.
pub proof fn lemma_inlining_is_transparent<O: Oracle>(
    program: &Program,
    ctrl: &AnalysisCtrl,
    oracle: &O,
    memo: Seq<MemoView>,
    b: nat,
    g: InlinedGraphView,
    queue: Set<Ends>,
    k: nat,
    c: BodyId,
    x: NodeView,
    y: NodeView,
    a: u32,
    through: EdgeType,
    ty: EdgeType,
)
    requires
        b < program.bodies.len(),
        k < program.bodies[b as int].calls.len(),
        action_of(program, ctrl, oracle, &program.bodies[b as int].calls[k as int].1)
            matches Some(action) && callee_of(action) matches Some(callee) && callee.0 == c,
        graph_for(program, ctrl, oracle, memo, c as nat).1 matches Some(h) && h.graph.flows.contains(
            (NodeView::Argument(a), NodeView::Return, through),
        ),
        g.graph.nodes.contains(
            call_node(
                b as usize,
                program.bodies[b as int].calls[k as int].0,
                program.bodies[b as int].calls[k as int].1.function,
            ),
        ),
        g.graph.flows.contains(
            (
                x,
                call_node(
                    b as usize,
                    program.bodies[b as int].calls[k as int].0,
                    program.bodies[b as int].calls[k as int].1.function,
                ),
                EdgeType::Data(a),
            ),
        ),
        g.graph.flows.contains(
            (
                call_node(
                    b as usize,
                    program.bodies[b as int].calls[k as int].0,
                    program.bodies[b as int].calls[k as int].1.function,
                ),
                y,
                ty,
            ),
        ),
        !is_call_from(program, b, k, x),
        !is_call_from(program, b, k, y),
    ensures
        inline_calls(program, ctrl, oracle, memo, b, g, queue, k).1.graph.flows.contains((x, y, ty)),
{
    let body = &program.bodies[b as int];
    let call = &body.calls[k as int].1;
    let site = Link { function: b as usize, location: body.calls[k as int].0 };
    let t = call_node(b as usize, body.calls[k as int].0, call.function);
    assert(is_call_from(program, b, k, t));
    lemma_graph_for_advances(program, ctrl, oracle, memo, c as nat);
    let r = graph_for(program, ctrl, oracle, memo, c as nat);
    let h = r.1->0;
    let callee = callee_of(action_of(program, ctrl, oracle, call)->0)->0;
    let closure = callee.1;
    lemma_inlining_connects(g.graph.flows, h.graph.flows, site, t, x, y, a, through, ty);
    lemma_is_call_from_later(program, b, k);
    lemma_inline_calls_keeps_flows(
        program,
        ctrl,
        oracle,
        r.0,
        b,
        inlined_view(g, h, call, closure, site, t),
        queue.union(boundary(g.graph.flows, h.graph.flows, site, t)),
        k + 1,
        (x, y, ty),
    );
}

} // verus!
