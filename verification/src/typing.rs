//! Flows never start at the return value, and flows into the arguments of a
//! call never name an argument that the call does not have.

use crate::args::{AnalysisCtrl, InconsequentialCallRemovalPolicy};
use crate::edge::{EdgeType, MAX_ARGUMENTS};
use crate::flows::{deps_of, lemma_width, sources, width};
use crate::global_location::{BodyId, Link};
use crate::graph::{DefId, FlowView, NodeView};
use crate::inline::{
    argument_flows, body_flows, body_graph, call_flows, call_node, calls_flows, return_arg_flows, GraphView, InlinedGraphView,
};
use crate::inliner::{
    action_of, dropped_view, inconsequential, inlined_view, opaque_equations, without_calls, Oracle,
};
use crate::memo::{
    callee_of, finished, graph_for, inline_calls, inlined_graph, lemma_not_started_update,
    not_started, with_equations, MemoView,
};
use crate::prune::called;
use crate::reduce::bypassed;
use crate::regal::{lemma_position_below, Body, Program};
use crate::splice::{contribution, inlined_flows, Ends};
use vstd::prelude::*;

verus! {

/// Whether the flow does not start at the return value and, if it leads
/// into an argument of a call, leads into an argument that the call has.
pub open spec fn flow_typed(program: &Program, f: FlowView) -> bool {
    &&& f.0 != NodeView::Return
    &&& match (f.1, f.2) {
        (NodeView::Call(c, _), EdgeType::Data(i)) => match called(program, c) {
            Some(call) => i < call.arguments.len(),
            None => false,
        },
        _ => true,
    }
}

/// Whether no flow starts at the return value and every flow into an
/// argument of a call leads into an argument that the call has.
pub open spec fn flows_typed(program: &Program, flows: Set<FlowView>) -> bool {
    forall|f: FlowView| #[trigger] flows.contains(f) ==> flow_typed(program, f)
}

/// For every call there are at most as many sets of dependencies as the
/// call has arguments, and the set at position `i` holds the sources of the
/// flows into the argument at position `i`, counted from 0.
pub proof fn lemma_argument_indexing(
    program: &Program,
    flows: Set<FlowView>,
    chain: Seq<Link>,
    function: DefId,
    body_id: BodyId,
    arg_block: u32,
)
    requires
        flows_typed(program, flows),
    ensures
        called(program, chain) matches Some(call) ==> deps_of(
            flows,
            NodeView::Call(chain, function),
            body_id,
            arg_block,
        ).input_deps.len() <= call.arguments.len(),
        called(program, chain) is None ==> deps_of(
            flows,
            NodeView::Call(chain, function),
            body_id,
            arg_block,
        ).input_deps.len() == 0,
        forall|i: int|
            0 <= i < deps_of(
                flows,
                NodeView::Call(chain, function),
                body_id,
                arg_block,
            ).input_deps.len() ==> #[trigger] deps_of(
                flows,
                NodeView::Call(chain, function),
                body_id,
                arg_block,
            ).input_deps[i] == sources(
                flows,
                NodeView::Call(chain, function),
                EdgeType::Data(i as u32),
                body_id,
                arg_block,
            ),
{
    let y = NodeView::Call(chain, function);
    let w = width(flows, y, MAX_ARGUMENTS as nat);
    lemma_width(flows, y, MAX_ARGUMENTS as nat);
    if w > 0 {
        let x = choose|x: NodeView| #[trigger]
            flows.contains((x, y, EdgeType::Data((w - 1) as u32)));
        assert(flow_typed(program, (x, y, EdgeType::Data((w - 1) as u32))));
    }
}

/// The flows into the first arguments of a call of a summary lead into the
/// node of the call, and into arguments that the call has, and do not start
/// at the return value.
proof fn lemma_argument_flows(body: &Body, body_id: BodyId, i: int, j: nat, f: FlowView)
    requires
        0 <= i < body.calls.len(),
        j <= body.calls[i].1.arguments.len(),
        argument_flows(body, body_id, i, j).contains(f),
    ensures
        f.0 != NodeView::Return,
        f.1 == call_node(body_id, body.calls[i].0, body.calls[i].1.function),
        f.2 matches EdgeType::Data(a) && a < j,
    decreases j,
{
    if j > 0 {
        match body.calls[i].1.arguments[j - 1] {
            Some(a) => {
                if !argument_flows(body, body_id, i, (j - 1) as nat).contains(f) {
                } else {
                    lemma_argument_flows(body, body_id, i, (j - 1) as nat, f);
                }
            },
            None => {
                lemma_argument_flows(body, body_id, i, (j - 1) as nat, f);
            },
        }
    }
}

/// The flows into the first calls of a summary are typed.
proof fn lemma_calls_flows(program: &Program, b: BodyId, n: nat, f: FlowView)
    requires
        program.wf(),
        b < program.bodies.len(),
        n <= program.bodies[b as int].calls.len(),
        calls_flows(&program.bodies[b as int], b, n).contains(f),
    ensures
        flow_typed(program, f),
    decreases n,
{
    let body = &program.bodies[b as int];
    if n > 0 {
        if calls_flows(body, b, (n - 1) as nat).contains(f) {
            lemma_calls_flows(program, b, (n - 1) as nat, f);
        } else {
            let i = n - 1;
            assert(call_flows(body, b, i).contains(f));
            if argument_flows(body, b, i, body.calls[i].1.arguments.len() as nat).contains(f) {
                lemma_argument_flows(body, b, i, body.calls[i].1.arguments.len() as nat, f);
                let chain = seq![Link { function: b, location: body.calls[i].0 }];
                assert(chain.last() == Link { function: b, location: body.calls[i].0 });
                lemma_position_below(body.calls@, body.calls[i].0, body.calls.len() as nat);
                assert(body.wf());
                let p = body.position(body.calls[i].0);
                assert(p is Some);
                if p->0 != i {
                    if p->0 < i {
                        assert(body.calls[p->0].0 != body.calls[i].0);
                    } else {
                        assert(body.calls[i].0 != body.calls[p->0].0);
                    }
                }
                assert(called(program, chain) == Some(body.calls[i].1));
            }
        }
    }
}

/// The flows into the first formal arguments of a summary lead into no
/// call and do not start at the return value.
proof fn lemma_return_arg_flows(body: &Body, body_id: BodyId, n: nat, f: FlowView)
    requires
        return_arg_flows(body, body_id, n).contains(f),
    ensures
        f.0 != NodeView::Return,
        !(f.1 is Call),
    decreases n,
{
    if n > 0 {
        if return_arg_flows(body, body_id, (n - 1) as nat).contains(f) {
            lemma_return_arg_flows(body, body_id, (n - 1) as nat, f);
        }
    }
}

/// The flows that the summary of a procedure records are typed.
pub proof fn lemma_body_flows_typed(program: &Program, b: BodyId)
    requires
        program.wf(),
        b < program.bodies.len(),
    ensures
        flows_typed(program, body_flows(&program.bodies[b as int], b)),
{
    let body = &program.bodies[b as int];
    assert forall|f: FlowView| #[trigger] body_flows(body, b).contains(f) implies flow_typed(
        program,
        f,
    ) by {
        if calls_flows(body, b, body.calls.len() as nat).contains(f) {
            lemma_calls_flows(program, b, body.calls.len() as nat, f);
        } else if return_arg_flows(body, b, body.return_arg_deps.len() as nat).contains(f) {
            lemma_return_arg_flows(body, b, body.return_arg_deps.len() as nat, f);
        }
    }
}

/// Inlining a callee whose flows are typed into a caller whose flows are
/// typed gives typed flows.
pub proof fn lemma_inlined_flows_typed(
    program: &Program,
    caller: Set<FlowView>,
    callee: Set<FlowView>,
    site: Link,
    t: NodeView,
)
    requires
        flows_typed(program, caller),
        flows_typed(program, callee),
    ensures
        flows_typed(program, inlined_flows(caller, callee, site, t)),
{
    assert forall|f: FlowView| #[trigger]
        inlined_flows(caller, callee, site, t).contains(f) implies flow_typed(program, f) by {
        if !caller.contains(f) {
            let h = choose|h: FlowView| #[trigger]
                callee.contains(h) && contribution(caller, site, t, h.0, h.1, set![h.2]).contains(f);
            assert(flow_typed(program, h));
            match h.1 {
                NodeView::Call(c, d) => {
                    assert(f.1 == NodeView::Call(seq![site] + c, d));
                    assert(f.2 == h.2);
                    match h.2 {
                        EdgeType::Data(i) => {
                            assert(c.len() > 0);
                            assert((seq![site] + c).last() == c.last());
                        },
                        EdgeType::Control => {},
                    }
                },
                _ => {
                    assert(caller.contains((t, f.1, f.2)));
                    assert(flow_typed(program, (t, f.1, f.2)));
                },
            }
        }
    }
}

/// Taking a node out of a graph whose flows are typed leaves typed flows.
pub proof fn lemma_bypassed_typed(
    program: &Program,
    flows: Set<FlowView>,
    n: NodeView,
    only: Option<EdgeType>,
)
    requires
        flows_typed(program, flows),
    ensures
        flows_typed(program, bypassed(flows, n, only)),
{
    assert forall|f: FlowView| #[trigger] bypassed(flows, n, only).contains(f) implies flow_typed(
        program,
        f,
    ) by {
        if !flows.contains(f) {
            assert(flows.contains((n, f.1, f.2)));
            assert(flow_typed(program, (n, f.1, f.2)));
        }
    }
}

/// Taking the calls without consequence out of a graph whose flows are
/// typed leaves typed flows.
pub proof fn lemma_without_calls_typed<O: Oracle>(
    program: &Program,
    oracle: &O,
    policy: InconsequentialCallRemovalPolicy,
    before: GraphView,
    body: &Body,
    body_id: BodyId,
    g: GraphView,
    k: nat,
)
    requires
        flows_typed(program, g.flows),
    ensures
        flows_typed(
            program,
            without_calls(program, oracle, policy, before, body, body_id, g, k).flows,
        ),
    decreases body.calls.len() - k,
{
    if k < body.calls.len() {
        let t = call_node(body_id, body.calls[k as int].0, body.calls[k as int].1.function);
        if inconsequential(
            program,
            oracle,
            policy,
            before,
            body_id,
            body.calls[k as int].0,
            &body.calls[k as int].1,
        ) {
            lemma_bypassed_typed(program, g.flows, t, None);
            lemma_without_calls_typed(
                program,
                oracle,
                policy,
                before,
                body,
                body_id,
                GraphView { nodes: g.nodes.remove(t), flows: bypassed(g.flows, t, None) },
                k + 1,
            );
        } else {
            lemma_without_calls_typed(program, oracle, policy, before, body, body_id, g, k + 1);
        }
    }
}

/// Whether the flows of every graph that was made are typed.
pub open spec fn memo_typed(program: &Program, memo: Seq<MemoView>) -> bool {
    forall|i: int|
        0 <= i < memo.len() ==> (#[trigger] memo[i] matches MemoView::Done(g) ==> flows_typed(
            program,
            g.graph.flows,
        ))
}

/// Reducing and pruning a graph whose flows are typed leaves typed flows.
pub proof fn lemma_finished_typed<O: Oracle>(
    program: &Program,
    ctrl: &AnalysisCtrl,
    oracle: &O,
    body_id: BodyId,
    g: InlinedGraphView,
    queue: Set<Ends>,
)
    requires
        flows_typed(program, g.graph.flows),
    ensures
        flows_typed(program, finished(program, ctrl, oracle, body_id, g, queue).graph.flows),
{
    lemma_without_calls_typed(
        program,
        oracle,
        ctrl.remove_inconsequential_calls,
        g.graph,
        &program.bodies[body_id as int],
        body_id,
        g.graph,
        0,
    );
}

/// Asking for the graph of a procedure keeps the flows of all graphs typed,
/// and gives a graph whose flows are typed.
pub proof fn lemma_graph_for_typed<O: Oracle>(
    program: &Program,
    ctrl: &AnalysisCtrl,
    oracle: &O,
    memo: Seq<MemoView>,
    b: nat,
)
    requires
        program.wf(),
        memo.len() == program.bodies.len(),
        memo_typed(program, memo),
    ensures
        graph_for(program, ctrl, oracle, memo, b).0.len() == memo.len(),
        memo_typed(program, graph_for(program, ctrl, oracle, memo, b).0),
        graph_for(program, ctrl, oracle, memo, b).1 matches Some(g) ==> flows_typed(
            program,
            g.graph.flows,
        ),
    decreases not_started(memo), 0int, 0int,
{
    if b < memo.len() {
        match memo[b as int] {
            MemoView::NotStarted => {
                lemma_not_started_update(memo, b as int, MemoView::InProgress);
                let started = memo.update(b as int, MemoView::InProgress);
                assert(memo_typed(program, started));
                lemma_inlined_graph_typed(program, ctrl, oracle, started, b);
            },
            _ => {},
        }
    }
}

/// Making the graph of a procedure keeps the flows of all graphs typed, and
/// gives a graph whose flows are typed.
pub proof fn lemma_inlined_graph_typed<O: Oracle>(
    program: &Program,
    ctrl: &AnalysisCtrl,
    oracle: &O,
    memo: Seq<MemoView>,
    b: nat,
)
    requires
        program.wf(),
        b < program.bodies.len(),
        memo.len() == program.bodies.len(),
        memo_typed(program, memo),
    ensures
        inlined_graph(program, ctrl, oracle, memo, b).0.len() == memo.len(),
        memo_typed(program, inlined_graph(program, ctrl, oracle, memo, b).0),
        flows_typed(program, inlined_graph(program, ctrl, oracle, memo, b).1.graph.flows),
    decreases not_started(memo), 2int, 0int,
{
    let start = body_graph(&program.bodies[b as int], b as usize);
    lemma_body_flows_typed(program, b as usize);
    lemma_inline_calls_typed(program, ctrl, oracle, memo, b, start, Set::empty(), 0);
    let r = inline_calls(program, ctrl, oracle, memo, b, start, Set::empty(), 0);
    lemma_finished_typed(program, ctrl, oracle, b as usize, r.1, r.2);
}

/// Looking at the calls of a procedure keeps the flows of all graphs typed,
/// and the flows of the graph of the procedure.
pub proof fn lemma_inline_calls_typed<O: Oracle>(
    program: &Program,
    ctrl: &AnalysisCtrl,
    oracle: &O,
    memo: Seq<MemoView>,
    b: nat,
    g: InlinedGraphView,
    queue: Set<Ends>,
    k: nat,
)
    requires
        program.wf(),
        b < program.bodies.len(),
        memo.len() == program.bodies.len(),
        memo_typed(program, memo),
        flows_typed(program, g.graph.flows),
    ensures
        inline_calls(program, ctrl, oracle, memo, b, g, queue, k).0.len() == memo.len(),
        memo_typed(program, inline_calls(program, ctrl, oracle, memo, b, g, queue, k).0),
        flows_typed(program, inline_calls(program, ctrl, oracle, memo, b, g, queue, k).1.graph.flows),
    decreases not_started(memo), 1int, program.bodies[b as int].calls.len() - k,
{
    let body = &program.bodies[b as int];
    if k < body.calls.len() {
        let location = body.calls[k as int].0;
        let call = &body.calls[k as int].1;
        let site = Link { function: b as usize, location };
        let t = call_node(b as usize, location, call.function);
        if !g.graph.nodes.contains(t) {
            lemma_inline_calls_typed(program, ctrl, oracle, memo, b, g, queue, k + 1);
        } else {
            match action_of(program, ctrl, oracle, call) {
                None => {
                    lemma_inline_calls_typed(
                        program,
                        ctrl,
                        oracle,
                        memo,
                        b,
                        with_equations(g, opaque_equations(call)),
                        queue,
                        k + 1,
                    );
                },
                Some(action) => match callee_of(action) {
                    None => {
                        lemma_bypassed_typed(program, g.graph.flows, t, Some(EdgeType::Data(0)));
                        lemma_inline_calls_typed(
                            program,
                            ctrl,
                            oracle,
                            memo,
                            b,
                            dropped_view(g, call, t),
                            queue,
                            k + 1,
                        );
                    },
                    Some(c) => {
                        lemma_graph_for_typed(program, ctrl, oracle, memo, c.0 as nat);
                        let r = graph_for(program, ctrl, oracle, memo, c.0 as nat);
                        if not_started(r.0) <= not_started(memo) {
                            match r.1 {
                                None => {
                                    lemma_inline_calls_typed(
                                        program,
                                        ctrl,
                                        oracle,
                                        r.0,
                                        b,
                                        with_equations(g, opaque_equations(call)),
                                        queue,
                                        k + 1,
                                    );
                                },
                                Some(h) => {
                                    lemma_inlined_flows_typed(
                                        program,
                                        g.graph.flows,
                                        h.graph.flows,
                                        site,
                                        t,
                                    );
                                    lemma_inline_calls_typed(
                                        program,
                                        ctrl,
                                        oracle,
                                        r.0,
                                        b,
                                        inlined_view(g, h, call, c.1, site, t),
                                        queue.union(
                                            crate::splice::boundary(
                                                g.graph.flows,
                                                h.graph.flows,
                                                site,
                                                t,
                                            ),
                                        ),
                                        k + 1,
                                    );
                                },
                            }
                        }
                    },
                },
            }
        }
    }
}

} // verus!
