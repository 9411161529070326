//! What asking for graphs does to what is known of the procedures: nothing
//! that is known is lost, and a graph that was made is handed out again.

use crate::ana::{
    after_inlined, after_regular, body_locations, flow_for, flows_not_started, inlined_callee,
    lemma_flows_not_started_update, regular_at, visit, FlowMemoView, GlobalFlowView, Procedures,
};
use crate::args::AnalysisCtrl;
use crate::inline::{body_graph, call_node, InlinedGraphView};
use crate::inliner::{action_of, dropped_view, inlined_view, opaque_equations, Oracle};
use crate::memo::{
    callee_of, graph_for, inline_calls, inlined_graph, lemma_not_started_update, not_started,
    with_equations, MemoView,
};
use crate::global_location::Link;
use crate::regal::{Call, Program};
use crate::splice::{boundary, Ends};
use vstd::prelude::*;

verus! {

/// Whether the entries `after` know at least what the entries `memo` know:
/// there are as many, no more of them are not started, a graph that was made
/// is still there, and what was in progress still is.
pub open spec fn advanced(memo: Seq<MemoView>, after: Seq<MemoView>) -> bool {
    &&& after.len() == memo.len()
    &&& not_started(after) <= not_started(memo)
    &&& forall|i: int|
        0 <= i < memo.len() ==> (#[trigger] memo[i] is Done ==> after[i] == memo[i]) && (memo[i]
            is InProgress ==> after[i] is InProgress)
}

/// Asking for the graph of a procedure loses nothing that is known. If a
/// graph is handed out, it is the one that is known of the procedure
/// afterwards; if none is handed out, nothing has changed.
pub proof fn lemma_graph_for_advances<O: Oracle>(
    program: &Program,
    ctrl: &AnalysisCtrl,
    oracle: &O,
    memo: Seq<MemoView>,
    b: nat,
)
    ensures
        advanced(memo, graph_for(program, ctrl, oracle, memo, b).0),
        graph_for(program, ctrl, oracle, memo, b).1 matches Some(g) ==> b < memo.len()
            && graph_for(program, ctrl, oracle, memo, b).0[b as int] == MemoView::Done(g),
        graph_for(program, ctrl, oracle, memo, b).1 is None ==> graph_for(
            program,
            ctrl,
            oracle,
            memo,
            b,
        ).0 == memo,
    decreases not_started(memo), 0int, 0int,
{
    if b < memo.len() && b < program.bodies.len() {
        match memo[b as int] {
            MemoView::NotStarted => {
                lemma_not_started_update(memo, b as int, MemoView::InProgress);
                let started = memo.update(b as int, MemoView::InProgress);
                lemma_inlined_graph_advances(program, ctrl, oracle, started, b);
                let r = inlined_graph(program, ctrl, oracle, started, b);
                assert(started[b as int] is InProgress);
                assert(r.0[b as int] is InProgress);
                lemma_not_started_update(r.0, b as int, MemoView::Done(r.1));
                let after = r.0.update(b as int, MemoView::Done(r.1));
                assert(graph_for(program, ctrl, oracle, memo, b) == (after, Some(r.1)));
                assert forall|i: int| 0 <= i < memo.len() implies (#[trigger] memo[i] is Done
                    ==> after[i] == memo[i]) && (memo[i] is InProgress ==> after[i]
                    is InProgress) by {
                    if i != b {
                        assert(started[i] == memo[i]);
                        assert(after[i] == r.0[i]);
                    }
                }
                assert(advanced(memo, after));
            },
            _ => {},
        }
    }
}

/// Making the graph of a procedure loses nothing that is known.
pub proof fn lemma_inlined_graph_advances<O: Oracle>(
    program: &Program,
    ctrl: &AnalysisCtrl,
    oracle: &O,
    memo: Seq<MemoView>,
    b: nat,
)
    requires
        b < program.bodies.len(),
    ensures
        advanced(memo, inlined_graph(program, ctrl, oracle, memo, b).0),
    decreases not_started(memo), 2int, 0int,
{
    lemma_inline_calls_advances(
        program,
        ctrl,
        oracle,
        memo,
        b,
        body_graph(&program.bodies[b as int], b as usize),
        Set::empty(),
        0,
    );
}

/// Looking at the calls of a procedure loses nothing that is known.
pub proof fn lemma_inline_calls_advances<O: Oracle>(
    program: &Program,
    ctrl: &AnalysisCtrl,
    oracle: &O,
    memo: Seq<MemoView>,
    b: nat,
    g: InlinedGraphView,
    queue: Set<Ends>,
    k: nat,
)
    requires
        b < program.bodies.len(),
    ensures
        advanced(memo, inline_calls(program, ctrl, oracle, memo, b, g, queue, k).0),
    decreases not_started(memo), 1int, program.bodies[b as int].calls.len() - k,
{
    let body = &program.bodies[b as int];
    if k < body.calls.len() {
        let location = body.calls[k as int].0;
        let call = &body.calls[k as int].1;
        let site = Link { function: b as usize, location };
        let t = call_node(b as usize, location, call.function);
        if !g.graph.nodes.contains(t) {
            lemma_inline_calls_advances(program, ctrl, oracle, memo, b, g, queue, k + 1);
        } else {
            match action_of(program, ctrl, oracle, call) {
                None => {
                    lemma_inline_calls_advances(
                        program,
                        ctrl,
                        oracle,
                        memo,
                        b,
                        with_equations(g, opaque_equations(call)),
                        queue,
                        k + 1,
                    );
                },
                Some(action) => match callee_of(action) {
                    None => {
                        lemma_inline_calls_advances(
                            program,
                            ctrl,
                            oracle,
                            memo,
                            b,
                            dropped_view(g, call, t),
                            queue,
                            k + 1,
                        );
                    },
                    Some(c) => {
                        lemma_graph_for_advances(program, ctrl, oracle, memo, c.0 as nat);
                        let r = graph_for(program, ctrl, oracle, memo, c.0 as nat);
                        match r.1 {
                            None => {
                                lemma_inline_calls_advances(
                                    program,
                                    ctrl,
                                    oracle,
                                    r.0,
                                    b,
                                    with_equations(g, opaque_equations(call)),
                                    queue,
                                    k + 1,
                                );
                            },
                            Some(h) => {
                                lemma_inline_calls_advances(
                                    program,
                                    ctrl,
                                    oracle,
                                    r.0,
                                    b,
                                    inlined_view(g, h, call, c.1, site, t),
                                    queue.union(boundary(g.graph.flows, h.graph.flows, site, t)),
                                    k + 1,
                                );
                            },
                        }
                    },
                },
            }
        }
    }
}

/// A second request for the graph of a procedure hands out the graph that
/// the first request gave, and changes nothing.
pub proof fn lemma_repeated_request<O: Oracle>(
    program: &Program,
    ctrl: &AnalysisCtrl,
    oracle: &O,
    memo: Seq<MemoView>,
    b: nat,
)
    requires
        graph_for(program, ctrl, oracle, memo, b).1 is Some,
    ensures
        graph_for(program, ctrl, oracle, graph_for(program, ctrl, oracle, memo, b).0, b)
            == graph_for(program, ctrl, oracle, memo, b),
{
    lemma_graph_for_advances(program, ctrl, oracle, memo, b);
}

/// Whether the entries `after` know at least what the entries `memo` know
/// of the flows of the procedures.
pub open spec fn flows_advanced(memo: Seq<FlowMemoView>, after: Seq<FlowMemoView>) -> bool {
    &&& after.len() == memo.len()
    &&& flows_not_started(after) <= flows_not_started(memo)
    &&& forall|i: int|
        0 <= i < memo.len() ==> (#[trigger] memo[i] is Done ==> after[i] == memo[i]) && (memo[i]
            is InProgress ==> after[i] is InProgress)
}

/// Asking for the flow of a procedure loses nothing that is known. A flow
/// that is handed out is the one that is known of the procedure afterwards;
/// a failure leaves the procedure as it was.
pub proof fn lemma_flow_for_advances<O: Oracle>(
    procedures: &Procedures,
    ctrl: &AnalysisCtrl,
    oracle: &O,
    memo: Seq<FlowMemoView>,
    b: nat,
)
    ensures
        flows_advanced(memo, flow_for(procedures, ctrl, oracle, memo, b).0),
        flow_for(procedures, ctrl, oracle, memo, b).1 matches Ok(Some(f)) ==> b < memo.len()
            && flow_for(procedures, ctrl, oracle, memo, b).0[b as int] == FlowMemoView::Done(f),
        flow_for(procedures, ctrl, oracle, memo, b).1 is Err ==> b < memo.len() && flow_for(
            procedures,
            ctrl,
            oracle,
            memo,
            b,
        ).0[b as int] == memo[b as int],
        flow_for(procedures, ctrl, oracle, memo, b).1 == Ok::<
            Option<GlobalFlowView>,
            crate::ana::AnalysisError,
        >(None) ==> flow_for(procedures, ctrl, oracle, memo, b).0 == memo,
    decreases flows_not_started(memo), 0int, 0int,
{
    if b < memo.len() && b < procedures.procedures.len() {
        match memo[b as int] {
            FlowMemoView::NotStarted => {
                lemma_flows_not_started_update(memo, b as int, FlowMemoView::InProgress);
                let started = memo.update(b as int, FlowMemoView::InProgress);
                let empty = GlobalFlowView { states: Seq::empty(), return_state: Seq::empty() };
                lemma_visit_advances(procedures, ctrl, oracle, started, b, empty, 0);
                let r = visit(procedures, ctrl, oracle, started, b, empty, 0);
                assert(started[b as int] is InProgress);
                assert(r.0[b as int] is InProgress);
                let v = match r.1 {
                    Ok(f) => FlowMemoView::Done(f),
                    Err(_) => FlowMemoView::NotStarted,
                };
                lemma_flows_not_started_update(r.0, b as int, v);
                let after = r.0.update(b as int, v);
                assert(flow_for(procedures, ctrl, oracle, memo, b).0 == after);
                assert forall|i: int| 0 <= i < memo.len() implies (#[trigger] memo[i] is Done
                    ==> after[i] == memo[i]) && (memo[i] is InProgress ==> after[i]
                    is InProgress) by {
                    if i != b {
                        assert(started[i] == memo[i]);
                        assert(after[i] == r.0[i]);
                    }
                }
                assert(flows_advanced(memo, after));
            },
            _ => {},
        }
    }
}

/// Looking at the points of a procedure loses nothing that is known.
pub proof fn lemma_visit_advances<O: Oracle>(
    procedures: &Procedures,
    ctrl: &AnalysisCtrl,
    oracle: &O,
    memo: Seq<FlowMemoView>,
    b: nat,
    flow: GlobalFlowView,
    k: nat,
)
    requires
        b < procedures.procedures.len(),
    ensures
        flows_advanced(memo, visit(procedures, ctrl, oracle, memo, b, flow, k).0),
    decreases flows_not_started(memo), 1int, body_locations(
        &procedures.procedures[b as int].body,
    ).len() - k,
{
    let locations = body_locations(&procedures.procedures[b as int].body);
    if k < locations.len() {
        let l = locations[k as int];
        match regular_at(procedures, b as int, l) {
            None => {},
            Some(regular) => match inlined_callee(procedures, ctrl, oracle, b as int, l) {
                None => {
                    lemma_visit_advances(
                        procedures,
                        ctrl,
                        oracle,
                        memo,
                        b,
                        after_regular(flow, procedures, b as int, l, regular),
                        k + 1,
                    );
                },
                Some(c) => {
                    lemma_flow_for_advances(procedures, ctrl, oracle, memo, c.0 as nat);
                    let r = flow_for(procedures, ctrl, oracle, memo, c.0 as nat);
                    match r.1 {
                        Err(e) => {},
                        Ok(None) => {
                            lemma_visit_advances(
                                procedures,
                                ctrl,
                                oracle,
                                r.0,
                                b,
                                after_regular(flow, procedures, b as int, l, regular),
                                k + 1,
                            );
                        },
                        Ok(Some(inner)) => {
                            lemma_visit_advances(
                                procedures,
                                ctrl,
                                oracle,
                                r.0,
                                b,
                                after_inlined(
                                    flow,
                                    procedures,
                                    b as int,
                                    l,
                                    c.0,
                                    c.1,
                                    regular,
                                    inner,
                                ),
                                k + 1,
                            );
                        },
                    }
                },
            },
        }
    }
}

/// Whether the procedure `a` has a call that is to be replaced by the
/// graph of the procedure `c`.
pub open spec fn inlines_call_of<O: Oracle>(
    program: &Program,
    ctrl: &AnalysisCtrl,
    oracle: &O,
    a: nat,
    c: nat,
) -> bool {
    a < program.bodies.len() && exists|k: int|
        0 <= k < program.bodies[a as int].calls.len() && callee_at(
            program,
            ctrl,
            oracle,
            &(#[trigger] program.bodies[a as int].calls[k]).1,
        ) == Some(c)
}

/// The procedure whose graph is to take the place of the call, if there is
/// one.
pub open spec fn callee_at<O: Oracle>(
    program: &Program,
    ctrl: &AnalysisCtrl,
    oracle: &O,
    call: &Call,
) -> Option<nat> {
    match action_of(program, ctrl, oracle, call) {
        Some(action) => match callee_of(action) {
            Some(c) => Some(c.0 as nat),
            None => None,
        },
        None => None,
    }
}

/// Whether each of the procedures has a call that is to be replaced by the
/// graph of the next.
pub open spec fn is_call_path<O: Oracle>(
    program: &Program,
    ctrl: &AnalysisCtrl,
    oracle: &O,
    p: Seq<nat>,
) -> bool {
    p.len() >= 1 && forall|i: int|
        0 <= i < p.len() - 1 ==> inlines_call_of(program, ctrl, oracle, #[trigger] p[i], p[i + 1])
}

/// Whether the procedure `to` is reached from the procedure `from` through
/// calls that are to be inlined. Every procedure reaches itself.
pub open spec fn reaches_by_inlining<O: Oracle>(
    program: &Program,
    ctrl: &AnalysisCtrl,
    oracle: &O,
    from: nat,
    to: nat,
) -> bool {
    exists|p: Seq<nat>|
        is_call_path(program, ctrl, oracle, p) && #[trigger] p[0] == from && p.last() == to
}

/// Whether between the entries `memo` and `after` only procedures have
/// changed that the procedure `b` reaches through calls that are to be
/// inlined.
pub open spec fn only_reached_changed<O: Oracle>(
    program: &Program,
    ctrl: &AnalysisCtrl,
    oracle: &O,
    b: nat,
    memo: Seq<MemoView>,
    after: Seq<MemoView>,
) -> bool {
    forall|j: int|
        0 <= j < memo.len() && j < after.len() && #[trigger] after[j] != memo[j]
            ==> reaches_by_inlining(program, ctrl, oracle, b, j as nat)
}

/// What a callee reaches, the caller reaches.
proof fn lemma_reaches_through<O: Oracle>(
    program: &Program,
    ctrl: &AnalysisCtrl,
    oracle: &O,
    a: nat,
    c: nat,
    j: nat,
)
    requires
        inlines_call_of(program, ctrl, oracle, a, c),
        reaches_by_inlining(program, ctrl, oracle, c, j),
    ensures
        reaches_by_inlining(program, ctrl, oracle, a, j),
{
    let p = choose|p: Seq<nat>|
        is_call_path(program, ctrl, oracle, p) && #[trigger] p[0] == c && p.last() == j;
    let q = seq![a] + p;
    assert forall|i: int| 0 <= i < q.len() - 1 implies inlines_call_of(
        program,
        ctrl,
        oracle,
        #[trigger] q[i],
        q[i + 1],
    ) by {
        if i > 0 {
            assert(inlines_call_of(program, ctrl, oracle, p[i - 1], p[i - 1 + 1]));
            assert(q[i] == p[i - 1] && q[i + 1] == p[i]);
        } else {
            assert(q[1] == p[0]);
        }
    }
    assert(is_call_path(program, ctrl, oracle, q) && q[0] == a && q.last() == j);
}

/// Asking for the graph of a procedure starts only procedures that it
/// reaches through calls that are to be inlined: of no other procedure does
/// anything become known. So the cache grows by no more than the procedures
/// that are reached.
pub proof fn lemma_graph_for_starts_reached<O: Oracle>(
    program: &Program,
    ctrl: &AnalysisCtrl,
    oracle: &O,
    memo: Seq<MemoView>,
    b: nat,
)
    ensures
        only_reached_changed(
            program,
            ctrl,
            oracle,
            b,
            memo,
            graph_for(program, ctrl, oracle, memo, b).0,
        ),
    decreases not_started(memo), 0int, 0int,
{
    if b < memo.len() && b < program.bodies.len() {
        match memo[b as int] {
            MemoView::NotStarted => {
                lemma_not_started_update(memo, b as int, MemoView::InProgress);
                let started = memo.update(b as int, MemoView::InProgress);
                lemma_inlined_graph_starts_reached(program, ctrl, oracle, started, b);
                lemma_inlined_graph_advances(program, ctrl, oracle, started, b);
                let r = inlined_graph(program, ctrl, oracle, started, b);
                let after = r.0.update(b as int, MemoView::Done(r.1));
                assert(graph_for(program, ctrl, oracle, memo, b).0 == after);
                assert forall|j: int|
                    0 <= j < memo.len() && j < after.len() && #[trigger] after[j]
                        != memo[j] implies reaches_by_inlining(program, ctrl, oracle, b, j as nat) by {
                    if j == b {
                        let p = seq![b];
                        assert(is_call_path(program, ctrl, oracle, p) && p[0] == b && p.last()
                            == b);
                    } else {
                        assert(after[j] == r.0[j]);
                        assert(started[j] == memo[j]);
                        assert(r.0[j] != started[j]);
                    }
                }
            },
            _ => {},
        }
    }
}

/// Making the graph of a procedure starts only procedures that it reaches.
pub proof fn lemma_inlined_graph_starts_reached<O: Oracle>(
    program: &Program,
    ctrl: &AnalysisCtrl,
    oracle: &O,
    memo: Seq<MemoView>,
    b: nat,
)
    requires
        b < program.bodies.len(),
    ensures
        only_reached_changed(
            program,
            ctrl,
            oracle,
            b,
            memo,
            inlined_graph(program, ctrl, oracle, memo, b).0,
        ),
    decreases not_started(memo), 2int, 0int,
{
    lemma_inline_calls_starts_reached(
        program,
        ctrl,
        oracle,
        memo,
        b,
        body_graph(&program.bodies[b as int], b as usize),
        Set::empty(),
        0,
    );
}

/// Looking at the calls of a procedure starts only procedures that it
/// reaches.
pub proof fn lemma_inline_calls_starts_reached<O: Oracle>(
    program: &Program,
    ctrl: &AnalysisCtrl,
    oracle: &O,
    memo: Seq<MemoView>,
    b: nat,
    g: InlinedGraphView,
    queue: Set<Ends>,
    k: nat,
)
    requires
        b < program.bodies.len(),
    ensures
        only_reached_changed(
            program,
            ctrl,
            oracle,
            b,
            memo,
            inline_calls(program, ctrl, oracle, memo, b, g, queue, k).0,
        ),
    decreases not_started(memo), 1int, program.bodies[b as int].calls.len() - k,
{
    let body = &program.bodies[b as int];
    if k < body.calls.len() {
        let location = body.calls[k as int].0;
        let call = &body.calls[k as int].1;
        let site = Link { function: b as usize, location };
        let t = call_node(b as usize, location, call.function);
        if !g.graph.nodes.contains(t) {
            lemma_inline_calls_starts_reached(program, ctrl, oracle, memo, b, g, queue, k + 1);
        } else {
            match action_of(program, ctrl, oracle, call) {
                None => {
                    lemma_inline_calls_starts_reached(
                        program,
                        ctrl,
                        oracle,
                        memo,
                        b,
                        with_equations(g, opaque_equations(call)),
                        queue,
                        k + 1,
                    );
                },
                Some(action) => match callee_of(action) {
                    None => {
                        lemma_inline_calls_starts_reached(
                            program,
                            ctrl,
                            oracle,
                            memo,
                            b,
                            dropped_view(g, call, t),
                            queue,
                            k + 1,
                        );
                    },
                    Some(c) => {
                        lemma_graph_for_starts_reached(program, ctrl, oracle, memo, c.0 as nat);
                        lemma_graph_for_advances(program, ctrl, oracle, memo, c.0 as nat);
                        let r = graph_for(program, ctrl, oracle, memo, c.0 as nat);
                        assert(inlines_call_of(program, ctrl, oracle, b, c.0 as nat)) by {
                            assert(callee_at(program, ctrl, oracle, &body.calls[k as int].1)
                                == Some(c.0 as nat));
                        }
                        let next = match r.1 {
                            None => with_equations(g, opaque_equations(call)),
                            Some(h) => inlined_view(g, h, call, c.1, site, t),
                        };
                        let more = match r.1 {
                            None => queue,
                            Some(h) => queue.union(boundary(g.graph.flows, h.graph.flows, site, t)),
                        };
                        lemma_inline_calls_starts_reached(
                            program,
                            ctrl,
                            oracle,
                            r.0,
                            b,
                            next,
                            more,
                            k + 1,
                        );
                        let after = inline_calls(program, ctrl, oracle, r.0, b, next, more, k + 1).0;
                        lemma_inline_calls_advances(program, ctrl, oracle, r.0, b, next, more, k + 1);
                        assert forall|j: int|
                            0 <= j < memo.len() && j < after.len() && #[trigger] after[j]
                                != memo[j] implies reaches_by_inlining(
                            program,
                            ctrl,
                            oracle,
                            b,
                            j as nat,
                        ) by {
                            if r.0[j] != memo[j] {
                                lemma_reaches_through(program, ctrl, oracle, b, c.0 as nat, j as nat);
                            } else {
                                assert(after[j] != r.0[j]);
                            }
                        }
                    },
                },
            }
        }
    }
}

} // verus!
