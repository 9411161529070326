//! The graph of a procedure none of whose calls is inlined: it has the
//! flows of the summary, as far as the equations support them, and no
//! others.

use crate::algebra::{lemma_search_finds_stacked, TermView};
use crate::args::{AnalysisCtrl, InconsequentialCallRemovalPolicy};
use crate::edge::EdgeType;
use crate::global_location::Link;
use crate::graph::{FlowView, NodeView};
use crate::inline::{
    argument_flows, body_flows, body_graph, body_nodes, call_flows, call_node, calls_flows,
    dep_flows, return_arg_flows, target_node, EquationView, InlinedGraphView,
};
use crate::inliner::{action_of, opaque_equations, Oracle};
use crate::memo::{inline_calls, inlined_graph, with_equations, MemoView};
use crate::prune::{called, plausible};
use crate::regal::{Body, Program};
use crate::splice::Ends;
use vstd::prelude::*;

verus! {

/// Whether every call of the procedure `b` stays as it is: none is inlined
/// and none is dropped.
pub open spec fn all_calls_stay<O: Oracle>(
    program: &Program,
    ctrl: &AnalysisCtrl,
    oracle: &O,
    b: nat,
) -> bool {
    forall|k: int|
        0 <= k < program.bodies[b as int].calls.len() ==> action_of(
            program,
            ctrl,
            oracle,
            &(#[trigger] program.bodies[b as int].calls[k]).1,
        ) is None
}

/// Looking at calls that all stay as they are changes neither the nodes nor
/// the flows of the graph, asks for no other graph, and inlines nothing.
pub proof fn lemma_calls_that_stay<O: Oracle>(
    program: &Program,
    ctrl: &AnalysisCtrl,
    oracle: &O,
    memo: Seq<MemoView>,
    b: nat,
    g: InlinedGraphView,
    queue: Set<Ends>,
    k: nat,
)
    requires
        b < program.bodies.len(),
        all_calls_stay(program, ctrl, oracle, b),
    ensures
        inline_calls(program, ctrl, oracle, memo, b, g, queue, k).0 == memo,
        inline_calls(program, ctrl, oracle, memo, b, g, queue, k).1.graph == g.graph,
        inline_calls(program, ctrl, oracle, memo, b, g, queue, k).1.num_inlined == g.num_inlined,
        inline_calls(program, ctrl, oracle, memo, b, g, queue, k).1.max_call_stack_depth
            == g.max_call_stack_depth,
        inline_calls(program, ctrl, oracle, memo, b, g, queue, k).2 == queue,
    decreases program.bodies[b as int].calls.len() - k,
{
    let body = &program.bodies[b as int];
    if k < body.calls.len() {
        let call = &body.calls[k as int].1;
        let t = call_node(b as usize, body.calls[k as int].0, call.function);
        assert(action_of(program, ctrl, oracle, call) is None);
        if !g.graph.nodes.contains(t) {
            lemma_calls_that_stay(program, ctrl, oracle, memo, b, g, queue, k + 1);
        } else {
            lemma_calls_that_stay(
                program,
                ctrl,
                oracle,
                memo,
                b,
                with_equations(g, opaque_equations(call)),
                queue,
                k + 1,
            );
        }
    }
}

/// The graph of a procedure whose calls all stay as they are, when no call
/// is taken out either: its nodes are those of the summary, every flow of it
/// is a flow of the summary, and every flow of the summary that the
/// equations support is a flow of it. Nothing is inlined, and no other graph
/// is asked for.
pub proof fn lemma_graph_of_calls_that_stay<O: Oracle>(
    program: &Program,
    ctrl: &AnalysisCtrl,
    oracle: &O,
    memo: Seq<MemoView>,
    b: nat,
)
    requires
        b < program.bodies.len(),
        all_calls_stay(program, ctrl, oracle, b),
        ctrl.remove_inconsequential_calls == InconsequentialCallRemovalPolicy::Disabled,
    ensures
        inlined_graph(program, ctrl, oracle, memo, b).0 == memo,
        inlined_graph(program, ctrl, oracle, memo, b).1.graph.nodes == body_nodes(
            &program.bodies[b as int],
            b as usize,
        ),
        inlined_graph(program, ctrl, oracle, memo, b).1.num_inlined == 0,
        forall|f: FlowView| #[trigger]
            inlined_graph(program, ctrl, oracle, memo, b).1.graph.flows.contains(f) ==> body_flows(
                &program.bodies[b as int],
                b as usize,
            ).contains(f),
        forall|f: FlowView| #[trigger]
            body_flows(&program.bodies[b as int], b as usize).contains(f) && plausible(
                program,
                inlined_graph(program, ctrl, oracle, memo, b).1.equations,
                f,
            ) ==> inlined_graph(program, ctrl, oracle, memo, b).1.graph.flows.contains(f),
{
    let start = body_graph(&program.bodies[b as int], b as usize);
    lemma_calls_that_stay(program, ctrl, oracle, memo, b, start, Set::empty(), 0);
}

/// A flow from a call into an argument of a call is supported by any
/// equations if the argument is the variable that receives the result of the
/// first call, and both calls stand in the same procedure, reached through
/// the same calls.
pub proof fn lemma_handed_over_is_plausible(
    program: &Program,
    eqs: Seq<EquationView>,
    f: FlowView,
    position: u32,
)
    requires
        f.2 == EdgeType::Data(position),
        f.0 is Call,
        f.1 is Call,
        f.0->Call_0.drop_last() == f.1->Call_0.drop_last(),
        called(program, f.0->Call_0) is Some,
        called(program, f.1->Call_0) is Some,
        position < called(program, f.1->Call_0)->0.arguments.len(),
        called(program, f.1->Call_0)->0.arguments[position as int] is Some,
        called(program, f.0->Call_0)->0.return_to == Some(
            called(program, f.1->Call_0)->0.arguments[position as int]->0.local,
        ),
    ensures
        plausible(program, eqs, f),
{
    let l = crate::prune::node_local(program, f.1, position)->0;
    let targets = crate::prune::source_locals(program, f.0)->0;
    let from = called(program, f.0->Call_0)->0;
    let locals = crate::prune::call_locals(from);
    assert(locals[locals.len() - 1] == l.local);
    assert(targets.contains(l));
    lemma_search_finds_stacked(
        eqs,
        Seq::new(eqs.len(), |k: int| false),
        seq![TermView::of_base(l)],
        targets,
        0,
    );
}

/// A flow into the first arguments of a call of a summary is a flow from a
/// dependency of one of them.
proof fn lemma_argument_flows_from(body: &Body, b: usize, i: int, n: nat, f: FlowView)
    requires
        0 <= i < body.calls.len(),
        n <= body.calls[i].1.arguments.len(),
    ensures
        argument_flows(body, b, i, n).contains(f) <==> exists|j: int|
            0 <= j < n && (#[trigger] body.calls[i].1.arguments[j]) is Some && dep_flows(
                body,
                b,
                body.calls[i].1.arguments[j]->0.dependencies@,
                call_node(b, body.calls[i].0, body.calls[i].1.function),
                EdgeType::Data(j as u32),
            ).contains(f),
    decreases n,
{
    if n > 0 {
        lemma_argument_flows_from(body, b, i, (n - 1) as nat, f);
        let last = dep_flows(
            body,
            b,
            body.calls[i].1.arguments[n - 1]->0.dependencies@,
            call_node(b, body.calls[i].0, body.calls[i].1.function),
            EdgeType::Data((n - 1) as u32),
        );
        if argument_flows(body, b, i, n).contains(f) {
            if argument_flows(body, b, i, (n - 1) as nat).contains(f) {
                let j = choose|j: int|
                    0 <= j < n - 1 && (#[trigger] body.calls[i].1.arguments[j]) is Some && dep_flows(
                        body,
                        b,
                        body.calls[i].1.arguments[j]->0.dependencies@,
                        call_node(b, body.calls[i].0, body.calls[i].1.function),
                        EdgeType::Data(j as u32),
                    ).contains(f);
                assert(0 <= j < n);
            } else {
                assert(body.calls[i].1.arguments[n - 1] is Some && last.contains(f));
            }
        }
        if exists|j: int|
            0 <= j < n && (#[trigger] body.calls[i].1.arguments[j]) is Some && dep_flows(
                body,
                b,
                body.calls[i].1.arguments[j]->0.dependencies@,
                call_node(b, body.calls[i].0, body.calls[i].1.function),
                EdgeType::Data(j as u32),
            ).contains(f) {
            let j = choose|j: int|
                0 <= j < n && (#[trigger] body.calls[i].1.arguments[j]) is Some && dep_flows(
                    body,
                    b,
                    body.calls[i].1.arguments[j]->0.dependencies@,
                    call_node(b, body.calls[i].0, body.calls[i].1.function),
                    EdgeType::Data(j as u32),
                ).contains(f);
            if j < n - 1 {
                assert(argument_flows(body, b, i, (n - 1) as nat).contains(f));
            }
        }
    }
}

/// A flow into the first calls of a summary is a flow into one of them.
proof fn lemma_calls_flows_from(body: &Body, b: usize, n: nat, f: FlowView)
    requires
        n <= body.calls.len(),
    ensures
        calls_flows(body, b, n).contains(f) <==> exists|i: int|
            0 <= i < n && #[trigger] call_flows(body, b, i).contains(f),
    decreases n,
{
    if n > 0 {
        lemma_calls_flows_from(body, b, (n - 1) as nat, f);
        if calls_flows(body, b, n).contains(f) {
            if calls_flows(body, b, (n - 1) as nat).contains(f) {
                let i = choose|i: int| 0 <= i < n - 1 && #[trigger] call_flows(body, b, i).contains(f);
                assert(0 <= i < n);
            } else {
                assert(call_flows(body, b, n - 1).contains(f));
            }
        }
        if exists|i: int| 0 <= i < n && #[trigger] call_flows(body, b, i).contains(f) {
            let i = choose|i: int| 0 <= i < n && #[trigger] call_flows(body, b, i).contains(f);
            if i < n - 1 {
                assert(calls_flows(body, b, (n - 1) as nat).contains(f));
            }
        }
    }
}

/// A flow into the first formal arguments of a summary leads to a formal
/// argument.
proof fn lemma_return_arg_flows_to(body: &Body, b: usize, n: nat, f: FlowView)
    requires
        return_arg_flows(body, b, n).contains(f),
    ensures
        f.1 is Argument,
    decreases n,
{
    if n > 0 {
        if return_arg_flows(body, b, (n - 1) as nat).contains(f) {
            lemma_return_arg_flows_to(body, b, (n - 1) as nat, f);
        }
    }
}

/// The summary has a flow from `x` into the argument at position `j` of its
/// call at position `i` exactly if the argument is a place and `x` is the
/// node of one of its dependencies.
pub proof fn lemma_flows_into_argument(body: &Body, b: usize, i: int, j: int, x: NodeView)
    requires
        body.wf(),
        0 <= i < body.calls.len(),
        0 <= j < body.calls[i].1.arguments.len(),
    ensures
        body_flows(body, b).contains(
            (x, call_node(b, body.calls[i].0, body.calls[i].1.function), EdgeType::Data(j as u32)),
        ) <==> (body.calls[i].1.arguments[j] matches Some(a) && exists|k: int|
            0 <= k < a.dependencies.len() && x == target_node(body, b, #[trigger] a.dependencies[k])),
{
    let to = call_node(b, body.calls[i].0, body.calls[i].1.function);
    let f: FlowView = (x, to, EdgeType::Data(j as u32));
    let n = body.calls[i].1.arguments.len() as nat;
    assert(body.calls[i].1.wf(body));
    lemma_argument_flows_from(body, b, i, n, f);
    lemma_calls_flows_from(body, b, body.calls.len() as nat, f);
    if body_flows(body, b).contains(f) {
        if return_arg_flows(body, b, body.return_arg_deps.len() as nat).contains(f) {
            lemma_return_arg_flows_to(body, b, body.return_arg_deps.len() as nat, f);
        }
        assert(calls_flows(body, b, body.calls.len() as nat).contains(f));
        let m = choose|m: int| 0 <= m < body.calls.len() && #[trigger] call_flows(body, b, m).contains(f);
        lemma_argument_flows_from(body, b, m, body.calls[m].1.arguments.len() as nat, f);
        assert(argument_flows(body, b, m, body.calls[m].1.arguments.len() as nat).contains(f));
        let p = choose|p: int|
            0 <= p < body.calls[m].1.arguments.len() && (#[trigger] body.calls[m].1.arguments[p])
                is Some && dep_flows(
                body,
                b,
                body.calls[m].1.arguments[p]->0.dependencies@,
                call_node(b, body.calls[m].0, body.calls[m].1.function),
                EdgeType::Data(p as u32),
            ).contains(f);
        assert(call_node(b, body.calls[m].0, body.calls[m].1.function) == to);
        assert(seq![Link { function: b, location: body.calls[m].0 }][0] == seq![
            Link { function: b, location: body.calls[i].0 },
        ][0]);
        if m < i {
            assert(body.calls[m].0 != body.calls[i].0);
        } else if i < m {
            assert(body.calls[i].0 != body.calls[m].0);
        }
        assert(m == i);
        assert(p as u32 == j as u32);
        assert(p == j);
        let a = body.calls[i].1.arguments[j]->0;
        let k = choose|k: int|
            0 <= k < a.dependencies.len() && f == (
                target_node(body, b, #[trigger] a.dependencies[k]),
                to,
                EdgeType::Data(j as u32),
            );
        assert(x == target_node(body, b, a.dependencies[k]));
    }
    if body.calls[i].1.arguments[j] matches Some(a) && exists|k: int|
        0 <= k < a.dependencies.len() && x == target_node(body, b, #[trigger] a.dependencies[k]) {
        let a = body.calls[i].1.arguments[j]->0;
        let k = choose|k: int|
            0 <= k < a.dependencies.len() && x == target_node(body, b, #[trigger] a.dependencies[k]);
        assert(dep_flows(body, b, a.dependencies@, to, EdgeType::Data(j as u32)).contains(f));
        assert(body.calls[i].1.arguments[j] is Some);
        assert(argument_flows(body, b, i, n).contains(f));
        assert(call_flows(body, b, i).contains(f));
        assert(calls_flows(body, b, body.calls.len() as nat).contains(f));
    }
}

} // verus!
