//! The graphs of the procedures of a program, each made once.
//!
//! The graph of a procedure is made when it is first asked for, and kept.
//! While it is being made the procedure counts as in progress: a call of a
//! procedure in progress is a recursive call. It stays in the graph as a
//! call, and like every call that is not inlined it brings the equations by
//! which whatever the callee may write may stem from any argument that it
//! reads.

use crate::args::{AnalysisCtrl, InconsequentialCallRemovalPolicy, PruningStrategy};
use crate::flows::{call_only_flow, has_duplicate_call, CallOnlyFlow};
use crate::global_location::{BodyId, GliAt, GlobalLocationInterner, Link};
use crate::graph::{DefId, FlowView, Node};
use crate::inline::{body_graph, call_node, EquationView, GraphView, InlinedGraph, InlinedGraphView};
use crate::inliner::{
    action_of, add_opaque_equations, classify, dropped_view, inlined_view, opaque_equations,
    without_calls, InlineAction, Oracle,
};
use crate::prune::{
    edge_has_been_pruned_before, find_prunable_edges, prunable, pruned_before, pruned_flows,
};
use crate::regal::{Local, Program};
use crate::splice::{boundary, ends_valid, lemma_listed_extends, listed_ends, Ends};
use crate::typing::{
    flows_typed, lemma_body_flows_typed, lemma_bypassed_typed, lemma_finished_typed,
    lemma_graph_for_typed, lemma_inlined_flows_typed, lemma_without_calls_typed, memo_typed,
};
use crate::edge::EdgeType;
use crate::sites::{
    lemma_body_nodes_known, lemma_finished_known, lemma_graph_for_known, lemma_inlined_nodes_known,
    lemma_known_nodes_are_distinct, memo_known, nodes_known,
};
use crate::utils::{CacheEntry, RecursionBreakingCache};
use vstd::prelude::*;

verus! {

/// The value of a [`Memo`].
pub enum MemoView {
    NotStarted,
    InProgress,
    Done(InlinedGraphView),
}

/// What is known of the graph of a procedure.
pub type Memo = CacheEntry<InlinedGraph>;

/// The invariant of an entry with respect to the interner.
pub open spec fn entry_wf(e: Memo, gli: &GlobalLocationInterner) -> bool {
    e matches CacheEntry::Done(g) ==> g.wf(gli)
}

/// The value of an entry.
pub open spec fn entry_view(e: Memo, gli: &GlobalLocationInterner) -> MemoView {
    match e {
        CacheEntry::NotStarted => MemoView::NotStarted,
        CacheEntry::InProgress => MemoView::InProgress,
        CacheEntry::Done(g) => MemoView::Done(g.view(gli)),
    }
}

/// Whether every entry meets its invariant.
pub open spec fn memo_wf(gli: &GlobalLocationInterner, memo: Seq<Memo>) -> bool {
    forall|i: int| 0 <= i < memo.len() ==> entry_wf(#[trigger] memo[i], gli)
}

/// The values of the entries.
pub open spec fn memo_views(gli: &GlobalLocationInterner, memo: Seq<Memo>) -> Seq<MemoView> {
    Seq::new(memo.len(), |i: int| entry_view(memo[i], gli))
}

/// Number of procedures whose graph nobody has asked for.
pub open spec fn not_started(memo: Seq<MemoView>) -> nat
    decreases memo.len(),
{
    if memo.len() == 0 {
        0
    } else {
        not_started(memo.drop_last()) + if memo.last() is NotStarted {
            1nat
        } else {
            0nat
        }
    }
}

/// An entry that is started or finished is no longer counted.
pub proof fn lemma_not_started_update(memo: Seq<MemoView>, b: int, v: MemoView)
    requires
        0 <= b < memo.len(),
        !(v is NotStarted),
    ensures
        not_started(memo.update(b, v)) + if memo[b] is NotStarted {
            1nat
        } else {
            0nat
        } == not_started(memo),
    decreases memo.len(),
{
    if b == memo.len() - 1 {
        assert(memo.update(b, v).drop_last() =~= memo.drop_last());
    } else {
        assert(memo.update(b, v).drop_last() =~= memo.drop_last().update(b, v));
        lemma_not_started_update(memo.drop_last(), b, v);
    }
}

/// Entries keep their invariant and their value when the interner grows.
pub proof fn lemma_memo_extends(
    gli: &GlobalLocationInterner,
    before: &GlobalLocationInterner,
    memo: Seq<Memo>,
)
    requires
        before.wf(),
        gli.wf(),
        gli.extends(before),
        memo_wf(before, memo),
    ensures
        memo_wf(gli, memo),
        memo_views(gli, memo) == memo_views(before, memo),
{
    assert forall|i: int| 0 <= i < memo.len() implies entry_wf(#[trigger] memo[i], gli)
        && entry_view(memo[i], gli) == entry_view(memo[i], before) by {
        match memo[i] {
            CacheEntry::Done(g) => {
                g.lemma_extends(gli, before);
            },
            _ => {},
        }
    }
    assert(memo_views(gli, memo) =~= memo_views(before, memo));
}

/// The started entries are those that are not counted as not started.
pub proof fn lemma_started(gli: &GlobalLocationInterner, memo: Seq<Memo>, n: nat)
    requires
        n <= memo.len(),
    ensures
        RecursionBreakingCache::<InlinedGraph>::started(memo, n) + not_started(
            memo_views(gli, memo).take(n as int),
        ) == n,
    decreases n,
{
    let views = memo_views(gli, memo);
    if n > 0 {
        lemma_started(gli, memo, (n - 1) as nat);
        assert(views.take(n as int).drop_last() =~= views.take(n as int - 1));
    } else {
        assert(views.take(0) =~= Seq::<MemoView>::empty());
    }
}

/// The graph with more equations.
pub open spec fn with_equations(g: InlinedGraphView, more: Seq<EquationView>) -> InlinedGraphView {
    InlinedGraphView {
        graph: g.graph,
        equations: g.equations + more,
        num_inlined: g.num_inlined,
        max_call_stack_depth: g.max_call_stack_depth,
    }
}

/// The graph with other nodes and flows.
pub open spec fn with_graph(g: InlinedGraphView, graph: GraphView) -> InlinedGraphView {
    InlinedGraphView {
        graph,
        equations: g.equations,
        num_inlined: g.num_inlined,
        max_call_stack_depth: g.max_call_stack_depth,
    }
}

/// The ends between which flows are checked against the equations.
pub open spec fn edges_to_check(strategy: PruningStrategy, flows: Set<FlowView>, queue: Set<Ends>) -> Set<
    Ends,
> {
    match strategy {
        PruningStrategy::NotPreviouslyPrunedEdges => prunable(flows),
        PruningStrategy::NewEdgesNotPreviouslyPruned => queue.filter(
            |e: Ends| !pruned_before(e.0, e.1),
        ),
        PruningStrategy::NewEdges => queue,
    }
}

/// The graph of the procedure `body_id` once its callees are inlined: the
/// calls without consequence are taken out, if that is asked for, and then
/// the flows are checked against the equations, if that is asked for.
pub open spec fn finished<O: Oracle>(
    program: &Program,
    ctrl: &AnalysisCtrl,
    oracle: &O,
    body_id: BodyId,
    g: InlinedGraphView,
    queue: Set<Ends>,
) -> InlinedGraphView {
    let reduced = if ctrl.remove_inconsequential_calls
        != InconsequentialCallRemovalPolicy::Disabled {
        with_graph(
            g,
            without_calls(
                program,
                oracle,
                ctrl.remove_inconsequential_calls,
                g.graph,
                &program.bodies[body_id as int],
                body_id,
                g.graph,
                0,
            ),
        )
    } else {
        g
    };
    if ctrl.use_pruning {
        with_graph(
            reduced,
            GraphView {
                nodes: reduced.graph.nodes,
                flows: pruned_flows(
                    program,
                    reduced.equations,
                    reduced.graph.flows,
                    edges_to_check(ctrl.pruning_strategy, reduced.graph.flows, queue),
                ),
            },
        )
    } else {
        reduced
    }
}

/// The procedure whose graph takes the place of a call, and the variable
/// that it receives as its only argument if it is a generator.
pub open spec fn callee_of(action: InlineAction) -> Option<(BodyId, Option<Local>)> {
    match action {
        InlineAction::SimpleInline(c) => Some((c, None)),
        InlineAction::InlineAsyncClosure(c, l) => Some((c, Some(l))),
        InlineAction::Drop => None,
    }
}

/// What asking for the graph of the procedure `b` gives: the entries
/// afterwards, and the graph unless the procedure is in progress. A graph
/// that was made before is handed out as it is; otherwise the procedure is in
/// progress while its graph is made.
pub open spec fn graph_for<O: Oracle>(
    program: &Program,
    ctrl: &AnalysisCtrl,
    oracle: &O,
    memo: Seq<MemoView>,
    b: nat,
) -> (Seq<MemoView>, Option<InlinedGraphView>)
    decreases not_started(memo), 0int, 0int,
{
    if b >= memo.len() || b >= program.bodies.len() {
        (memo, None)
    } else {
        match memo[b as int] {
            MemoView::Done(g) => (memo, Some(g)),
            MemoView::InProgress => (memo, None),
            MemoView::NotStarted => {
                proof {
                    lemma_not_started_update(memo, b as int, MemoView::InProgress);
                }
                let r = inlined_graph(
                    program,
                    ctrl,
                    oracle,
                    memo.update(b as int, MemoView::InProgress),
                    b,
                );
                (r.0.update(b as int, MemoView::Done(r.1)), Some(r.1))
            },
        }
    }
}

/// The graph of the procedure `b` with its callees inlined, and the
/// entries once it is made.
pub open spec fn inlined_graph<O: Oracle>(
    program: &Program,
    ctrl: &AnalysisCtrl,
    oracle: &O,
    memo: Seq<MemoView>,
    b: nat,
) -> (Seq<MemoView>, InlinedGraphView)
    decreases not_started(memo), 2int, 0int,
{
    let r = inline_calls(
        program,
        ctrl,
        oracle,
        memo,
        b,
        body_graph(&program.bodies[b as int], b as usize),
        Set::empty(),
        0,
    );
    (r.0, finished(program, ctrl, oracle, b as usize, r.1, r.2))
}

/// What looking at the calls of the procedure `b` from position `k` on
/// makes of the graph `g`: the entries afterwards, the graph, and the ends of
/// the flows that cross the boundary of an inlined callee. A call whose node
/// is not in the graph is passed over. A call that stays as it is brings its
/// equations. A poll that is dropped is taken out. For a call that is to be
/// inlined the graph of the callee is asked for; if the callee is in
/// progress the call stays as it is and brings its equations like any call
/// that stays, and else the callee's graph takes its place.
pub open spec fn inline_calls<O: Oracle>(
    program: &Program,
    ctrl: &AnalysisCtrl,
    oracle: &O,
    memo: Seq<MemoView>,
    b: nat,
    g: InlinedGraphView,
    queue: Set<Ends>,
    k: nat,
) -> (Seq<MemoView>, InlinedGraphView, Set<Ends>)
    decreases not_started(memo), 1int, program.bodies[b as int].calls.len() - k,
{
    let body = &program.bodies[b as int];
    if k >= body.calls.len() {
        (memo, g, queue)
    } else {
        let location = body.calls[k as int].0;
        let call = &body.calls[k as int].1;
        let site = Link { function: b as usize, location };
        let t = call_node(b as usize, location, call.function);
        if !g.graph.nodes.contains(t) {
            inline_calls(program, ctrl, oracle, memo, b, g, queue, k + 1)
        } else {
            match action_of(program, ctrl, oracle, call) {
                None => inline_calls(
                    program,
                    ctrl,
                    oracle,
                    memo,
                    b,
                    with_equations(g, opaque_equations(call)),
                    queue,
                    k + 1,
                ),
                Some(action) => match callee_of(action) {
                    None => inline_calls(
                        program,
                        ctrl,
                        oracle,
                        memo,
                        b,
                        dropped_view(g, call, t),
                        queue,
                        k + 1,
                    ),
                    Some(c) => {
                        let r = graph_for(program, ctrl, oracle, memo, c.0 as nat);
                        if not_started(r.0) > not_started(memo) {
                            (r.0, g, queue)
                        } else {
                            match r.1 {
                                None => inline_calls(
                                    program,
                                    ctrl,
                                    oracle,
                                    r.0,
                                    b,
                                    with_equations(g, opaque_equations(call)),
                                    queue,
                                    k + 1,
                                ),
                                Some(h) => inline_calls(
                                    program,
                                    ctrl,
                                    oracle,
                                    r.0,
                                    b,
                                    inlined_view(g, h, call, c.1, site, t),
                                    queue.union(boundary(g.graph.flows, h.graph.flows, site, t)),
                                    k + 1,
                                ),
                            }
                        }
                    },
                },
            }
        }
    }
}

/// Those of the listed ends between which no earlier pass has checked the
/// flows.
fn retain_unpruned(gli: &GlobalLocationInterner, queue: &Vec<(Node, Node)>) -> (r: Vec<(Node, Node)>)
    requires
        gli.wf(),
        ends_valid(gli, queue@),
    ensures
        ends_valid(gli, r@),
        listed_ends(gli, r@) == listed_ends(gli, queue@).filter(|e: Ends| !pruned_before(e.0, e.1)),
{
    let mut r: Vec<(Node, Node)> = Vec::new();
    let mut k: usize = 0;
    proof {
        assert(listed_ends(gli, r@) =~= listed_ends(gli, queue@.take(0)).filter(
            |e: Ends| !pruned_before(e.0, e.1),
        ));
    }
    while k < queue.len()
        invariant
            k <= queue.len(),
            gli.wf(),
            ends_valid(gli, queue@),
            ends_valid(gli, r@),
            listed_ends(gli, r@) == listed_ends(gli, queue@.take(k as int)).filter(
                |e: Ends| !pruned_before(e.0, e.1),
            ),
        decreases queue.len() - k,
    {
        let (from, to) = queue[k];
        proof {
            crate::splice::lemma_listed_push(gli, queue@.take(k as int), (from, to));
            assert(queue@.take(k as int + 1) =~= queue@.take(k as int).push((from, to)));
        }
        if !edge_has_been_pruned_before(gli, from, to) {
            proof {
                crate::splice::lemma_listed_push(gli, r@, (from, to));
            }
            r.push((from, to));
        }
        proof {
            assert(listed_ends(gli, r@) =~= listed_ends(gli, queue@.take(k as int + 1)).filter(
                |e: Ends| !pruned_before(e.0, e.1),
            ));
        }
        k = k + 1;
    }
    proof {
        assert(queue@.take(queue.len() as int) =~= queue@);
    }
    r
}

/// Takes the calls without consequence out of the graph of the procedure
/// `body_id`, if that is asked for, and then checks the flows against the
/// equations, if that is asked for.
pub fn finish<O: Oracle>(
    program: &Program,
    ctrl: &AnalysisCtrl,
    oracle: &O,
    gli: &mut GlobalLocationInterner,
    g: &mut InlinedGraph,
    body_id: BodyId,
    queue: Vec<(Node, Node)>,
)
    requires
        old(gli).wf(),
        old(g).wf(old(gli)),
        body_id < program.bodies.len(),
        ends_valid(old(gli), queue@),
        flows_typed(program, old(g).view(old(gli)).graph.flows),
        nodes_known(program, old(g).view(old(gli)).graph.nodes),
    ensures
        flows_typed(program, final(g).view(final(gli)).graph.flows),
        nodes_known(program, final(g).view(final(gli)).graph.nodes),
        final(gli).wf(),
        final(gli).extends(old(gli)),
        final(g).wf(final(gli)),
        final(g).view(final(gli)) == finished(
            program,
            ctrl,
            oracle,
            body_id,
            old(g).view(old(gli)),
            listed_ends(old(gli), queue@),
        ),
{
    proof {
        lemma_finished_typed(
            program,
            ctrl,
            oracle,
            body_id,
            g.view(gli),
            listed_ends(gli, queue@),
        );
        lemma_finished_known(
            program,
            ctrl,
            oracle,
            body_id,
            g.view(gli),
            listed_ends(gli, queue@),
        );
        crate::sites::lemma_without_calls_known(
            program,
            oracle,
            ctrl.remove_inconsequential_calls,
            g.view(gli).graph,
            &program.bodies[body_id as int],
            body_id,
            g.view(gli).graph,
            0,
        );
        lemma_without_calls_typed(
            program,
            oracle,
            ctrl.remove_inconsequential_calls,
            g.view(gli).graph,
            &program.bodies[body_id as int],
            body_id,
            g.view(gli).graph,
            0,
        );
    }
    if ctrl.remove_inconsequential_calls().is_enabled() {
        g.remove_inconsequential_calls(
            program,
            oracle,
            ctrl.remove_inconsequential_calls(),
            gli,
            body_id,
        );
    }
    proof {
        lemma_listed_extends(gli, old(gli), queue@);
    }
    if ctrl.use_pruning() {
        let edges = match ctrl.pruning_strategy() {
            PruningStrategy::NotPreviouslyPrunedEdges => find_prunable_edges(gli, g),
            PruningStrategy::NewEdgesNotPreviouslyPruned => retain_unpruned(gli, &queue),
            PruningStrategy::NewEdges => queue,
        };
        g.prune_impossible_edges(program, gli, &edges);
    }
}

/// Looks at every call of the procedure `body_id` once. A call that is to
/// be inlined is replaced by the graph of its callee, unless the callee is in
/// progress; a poll that is to be dropped is taken out; for a call that stays
/// as it is, be it because it is not to be inlined or because its callee is in
/// progress, its equations are added. Returns the ends of the flows that
/// cross the boundary of an inlined callee.
pub fn perform_subfunction_inlining<O: Oracle>(
    program: &Program,
    ctrl: &AnalysisCtrl,
    oracle: &O,
    gli: &mut GlobalLocationInterner,
    memo: &mut RecursionBreakingCache<InlinedGraph>,
    g: &mut InlinedGraph,
    body_id: BodyId,
) -> (queue: Vec<(Node, Node)>)
    requires
        program.wf(),
        old(gli).wf(),
        memo_wf(old(gli), old(memo)@),
        old(memo)@.len() == program.bodies.len(),
        body_id < program.bodies.len(),
        old(g).wf(old(gli)),
        memo_typed(program, memo_views(old(gli), old(memo)@)),
        memo_known(program, memo_views(old(gli), old(memo)@)),
        flows_typed(program, old(g).view(old(gli)).graph.flows),
        nodes_known(program, old(g).view(old(gli)).graph.nodes),
    ensures
        memo_typed(program, memo_views(final(gli), final(memo)@)),
        memo_known(program, memo_views(final(gli), final(memo)@)),
        flows_typed(program, final(g).view(final(gli)).graph.flows),
        nodes_known(program, final(g).view(final(gli)).graph.nodes),
        final(gli).wf(),
        final(gli).extends(old(gli)),
        memo_wf(final(gli), final(memo)@),
        final(memo)@.len() == program.bodies.len(),
        final(g).wf(final(gli)),
        ends_valid(final(gli), queue@),
        not_started(memo_views(final(gli), final(memo)@)) <= not_started(
            memo_views(old(gli), old(memo)@),
        ),
        inline_calls(
            program,
            ctrl,
            oracle,
            memo_views(old(gli), old(memo)@),
            body_id as nat,
            old(g).view(old(gli)),
            Set::empty(),
            0,
        ) == (
            memo_views(final(gli), final(memo)@),
            final(g).view(final(gli)),
            listed_ends(final(gli), queue@),
        ),
    decreases not_started(memo_views(old(gli), old(memo)@)), 1int, 0int,
{
    let body = &program.bodies[body_id];
    let mut queue: Vec<(Node, Node)> = Vec::new();
    let mut k: usize = 0;
    proof {
        assert(listed_ends(gli, queue@) =~= Set::<Ends>::empty());
    }
    while k < body.calls.len()
        invariant
            k <= body.calls.len(),
            body == &program.bodies[body_id as int],
            program.wf(),
            body_id < program.bodies.len(),
            gli.wf(),
            gli.extends(old(gli)),
            memo_wf(gli, memo@),
            memo@.len() == program.bodies.len(),
            g.wf(gli),
            ends_valid(gli, queue@),
            memo_typed(program, memo_views(gli, memo@)),
            flows_typed(program, g.view(gli).graph.flows),
            memo_known(program, memo_views(gli, memo@)),
            nodes_known(program, g.view(gli).graph.nodes),
            not_started(memo_views(gli, memo@)) <= not_started(memo_views(old(gli), old(memo)@)),
            inline_calls(
                program,
                ctrl,
                oracle,
                memo_views(gli, memo@),
                body_id as nat,
                g.view(gli),
                listed_ends(gli, queue@),
                k as nat,
            ) == inline_calls(
                program,
                ctrl,
                oracle,
                memo_views(old(gli), old(memo)@),
                body_id as nat,
                old(g).view(old(gli)),
                Set::empty(),
                0,
            ),
        decreases body.calls.len() - k,
    {
        let location = body.calls[k].0;
        let call = &body.calls[k].1;
        let ghost gli_before = *gli;
        let t = Node::Call(gli.globalize_location(location, body_id), call.function);
        proof {
            g.lemma_extends(gli, &gli_before);
            lemma_memo_extends(gli, &gli_before, memo@);
            lemma_listed_extends(gli, &gli_before, queue@);
            g.graph.lemma_node_view(gli, t);
            assert(body.calls[k as int].1.wf(body));
        }
        if g.graph.contains_node(t) {
            match classify(program, ctrl, oracle, call) {
                None => {
                    add_opaque_equations(&mut g.equations, call);
                },
                Some(InlineAction::Drop) => {
                    proof {
                        lemma_bypassed_typed(
                            program,
                            g.view(gli).graph.flows,
                            t.view(gli),
                            Some(EdgeType::Data(0)),
                        );
                    }
                    g.drop_call(gli, call, t);
                },
                Some(InlineAction::SimpleInline(c)) => {
                    let ghost gli_mid = *gli;
                    let available = get_graph(program, ctrl, oracle, gli, memo, c);
                    proof {
                        g.lemma_extends(gli, &gli_mid);
                        lemma_listed_extends(gli, &gli_mid, queue@);
                        t.lemma_extends_view(gli, &gli_mid);
                    }
                    let made = if available {
                        memo.get(c)
                    } else {
                        None
                    };
                    match made {
                        Some(callee) => {
                            let ghost gli_late = *gli;
                            proof {
                                assert(entry_wf(memo@[c as int], gli));
                                assert(memo_views(gli, memo@)[c as int] == MemoView::Done(
                                    callee.view(gli),
                                ));
                                lemma_inlined_flows_typed(
                                    program,
                                    g.view(gli).graph.flows,
                                    callee.view(gli).graph.flows,
                                    Link { function: body_id, location },
                                    t.view(gli),
                                );
                                lemma_inlined_nodes_known(
                                    program,
                                    g.view(gli).graph.nodes,
                                    callee.view(gli).graph.nodes,
                                    Link { function: body_id, location },
                                    t.view(gli),
                                );
                            }
                            g.inline_callee(
                                gli,
                                &mut queue,
                                callee,
                                call,
                                None,
                                GliAt::at(location, body_id),
                                t,
                            );
                            proof {
                                lemma_memo_extends(gli, &gli_late, memo@);
                            }
                        },
                        None => {
                            add_opaque_equations(&mut g.equations, call);
                        },
                    }
                },
                Some(InlineAction::InlineAsyncClosure(c, local)) => {
                    let ghost gli_mid = *gli;
                    let available = get_graph(program, ctrl, oracle, gli, memo, c);
                    proof {
                        g.lemma_extends(gli, &gli_mid);
                        lemma_listed_extends(gli, &gli_mid, queue@);
                        t.lemma_extends_view(gli, &gli_mid);
                    }
                    let made = if available {
                        memo.get(c)
                    } else {
                        None
                    };
                    match made {
                        Some(callee) => {
                            let ghost gli_late = *gli;
                            proof {
                                assert(entry_wf(memo@[c as int], gli));
                                assert(memo_views(gli, memo@)[c as int] == MemoView::Done(
                                    callee.view(gli),
                                ));
                                lemma_inlined_flows_typed(
                                    program,
                                    g.view(gli).graph.flows,
                                    callee.view(gli).graph.flows,
                                    Link { function: body_id, location },
                                    t.view(gli),
                                );
                                lemma_inlined_nodes_known(
                                    program,
                                    g.view(gli).graph.nodes,
                                    callee.view(gli).graph.nodes,
                                    Link { function: body_id, location },
                                    t.view(gli),
                                );
                            }
                            g.inline_callee(
                                gli,
                                &mut queue,
                                callee,
                                call,
                                Some(local),
                                GliAt::at(location, body_id),
                                t,
                            );
                            proof {
                                lemma_memo_extends(gli, &gli_late, memo@);
                            }
                        },
                        None => {
                            add_opaque_equations(&mut g.equations, call);
                        },
                    }
                },
            }
        }
        k = k + 1;
    }
    queue
}

/// Makes the graph of the procedure `body_id`: from its summary, with its
/// callees inlined, reduced and pruned as the switches say.
pub fn inline_graph<O: Oracle>(
    program: &Program,
    ctrl: &AnalysisCtrl,
    oracle: &O,
    gli: &mut GlobalLocationInterner,
    memo: &mut RecursionBreakingCache<InlinedGraph>,
    body_id: BodyId,
) -> (g: InlinedGraph)
    requires
        program.wf(),
        old(gli).wf(),
        memo_wf(old(gli), old(memo)@),
        old(memo)@.len() == program.bodies.len(),
        body_id < program.bodies.len(),
        memo_typed(program, memo_views(old(gli), old(memo)@)),
        memo_known(program, memo_views(old(gli), old(memo)@)),
    ensures
        memo_typed(program, memo_views(final(gli), final(memo)@)),
        memo_known(program, memo_views(final(gli), final(memo)@)),
        flows_typed(program, g.view(final(gli)).graph.flows),
        nodes_known(program, g.view(final(gli)).graph.nodes),
        final(gli).wf(),
        final(gli).extends(old(gli)),
        memo_wf(final(gli), final(memo)@),
        final(memo)@.len() == program.bodies.len(),
        g.wf(final(gli)),
        not_started(memo_views(final(gli), final(memo)@)) <= not_started(
            memo_views(old(gli), old(memo)@),
        ),
        inlined_graph(program, ctrl, oracle, memo_views(old(gli), old(memo)@), body_id as nat) == (
            memo_views(final(gli), final(memo)@),
            g.view(final(gli)),
        ),
    decreases not_started(memo_views(old(gli), old(memo)@)), 2int, 0int,
{
    let body = &program.bodies[body_id];
    let mut g = InlinedGraph::from_body(gli, body_id, body);
    proof {
        lemma_memo_extends(gli, old(gli), memo@);
        lemma_body_flows_typed(program, body_id);
        lemma_body_nodes_known(program, body_id);
    }
    let ghost gli_mid = *gli;
    let queue = perform_subfunction_inlining(program, ctrl, oracle, gli, memo, &mut g, body_id);
    let ghost gli_late = *gli;
    finish(program, ctrl, oracle, gli, &mut g, body_id, queue);
    proof {
        lemma_memo_extends(gli, &gli_late, memo@);
    }
    g
}

/// Asks for the graph of the procedure `body_id`, and makes it if nobody
/// has asked before. Says whether the graph is there; it is not if the
/// procedure is in progress.
pub fn get_graph<O: Oracle>(
    program: &Program,
    ctrl: &AnalysisCtrl,
    oracle: &O,
    gli: &mut GlobalLocationInterner,
    memo: &mut RecursionBreakingCache<InlinedGraph>,
    body_id: BodyId,
) -> (r: bool)
    requires
        program.wf(),
        old(gli).wf(),
        memo_wf(old(gli), old(memo)@),
        old(memo)@.len() == program.bodies.len(),
        body_id < program.bodies.len(),
        memo_typed(program, memo_views(old(gli), old(memo)@)),
        memo_known(program, memo_views(old(gli), old(memo)@)),
    ensures
        memo_typed(program, memo_views(final(gli), final(memo)@)),
        memo_known(program, memo_views(final(gli), final(memo)@)),
        final(gli).wf(),
        final(gli).extends(old(gli)),
        memo_wf(final(gli), final(memo)@),
        final(memo)@.len() == program.bodies.len(),
        r == final(memo)@[body_id as int] is Done,
        not_started(memo_views(final(gli), final(memo)@)) <= not_started(
            memo_views(old(gli), old(memo)@),
        ),
        graph_for(program, ctrl, oracle, memo_views(old(gli), old(memo)@), body_id as nat) == (
            memo_views(final(gli), final(memo)@),
            if r {
                Some(final(memo)@[body_id as int]->Done_0.view(final(gli)))
            } else {
                None
            },
        ),
    decreases not_started(memo_views(old(gli), old(memo)@)), 0int, 0int,
{
    let ghost before = memo_views(gli, memo@);
    if !memo.start(body_id) {
        return memo.get(body_id).is_some();
    }
    proof {
        assert(memo_views(gli, memo@) =~= before.update(body_id as int, MemoView::InProgress));
        lemma_not_started_update(before, body_id as int, MemoView::InProgress);
    }
    let g = inline_graph(program, ctrl, oracle, gli, memo, body_id);
    let ghost after = memo_views(gli, memo@);
    memo.finish(body_id, g);
    proof {
        assert(memo_views(gli, memo@) =~= after.update(body_id as int, MemoView::Done(g.view(gli))));
        lemma_not_started_update(after, body_id as int, MemoView::Done(g.view(gli)));
        lemma_graph_for_typed(program, ctrl, oracle, before, body_id as nat);
        lemma_graph_for_known(program, ctrl, oracle, before, body_id as nat);
    }
    true
}

/// Makes and keeps the graphs of the procedures of a program.
pub struct Inliner<'a, O: Oracle> {
    program: &'a Program,
    oracle: &'a O,
    ana_ctrl: AnalysisCtrl,
    gli: GlobalLocationInterner,
    inline_memo: RecursionBreakingCache<InlinedGraph>,
}

impl<'a, O: Oracle> Inliner<'a, O> {
    /// The invariant of the inliner.
    pub closed spec fn wf(&self) -> bool {
        &&& self.program.wf()
        &&& self.gli.wf()
        &&& memo_wf(&self.gli, self.inline_memo@)
        &&& self.inline_memo@.len() == self.program.bodies.len()
        &&& memo_typed(self.program, memo_views(&self.gli, self.inline_memo@))
        &&& memo_known(self.program, memo_views(&self.gli, self.inline_memo@))
    }

    /// What the invariant of the inliner says of what can be seen of it:
    /// the program and the interner meet their invariants, something is
    /// known of every procedure of the program, and in no graph that was made
    /// does a flow start at the return value or lead into an argument that
    /// the call does not have, and every call node names the procedure that
    /// the call at its location calls.
    pub proof fn lemma_wf(&self)
        requires
            self.wf(),
        ensures
            self.program().wf(),
            self.interner().wf(),
            self.memo().len() == self.program().bodies.len(),
            memo_typed(self.program(), self.memo()),
            memo_known(self.program(), self.memo()),
    {
    }

    /// The program whose procedures the inliner looks at.
    pub closed spec fn program(&self) -> &Program {
        self.program
    }

    /// The oracle that the inliner asks.
    pub closed spec fn oracle(&self) -> &O {
        self.oracle
    }

    /// The switches of the inliner.
    pub closed spec fn ana_ctrl(&self) -> AnalysisCtrl {
        self.ana_ctrl
    }

    /// What is known of the graph of each procedure.
    pub closed spec fn memo(&self) -> Seq<MemoView> {
        memo_views(&self.gli, self.inline_memo@)
    }

    /// The interner of the locations of the graphs.
    pub closed spec fn interner(&self) -> GlobalLocationInterner {
        self.gli
    }

    /// An inliner that has made no graph yet.
    pub fn new(program: &'a Program, oracle: &'a O, ana_ctrl: AnalysisCtrl) -> (r: Self)
        requires
            program.wf(),
        ensures
            r.wf(),
            r.program() == program,
            r.oracle() == oracle,
            r.ana_ctrl() == ana_ctrl,
            r.memo() == Seq::new(program.bodies.len() as nat, |i: int| MemoView::NotStarted),
    {
        let inline_memo = RecursionBreakingCache::new(program.bodies.len());
        let r = Inliner { program, oracle, ana_ctrl, gli: GlobalLocationInterner::new(), inline_memo };
        proof {
            assert(r.memo() =~= Seq::new(
                program.bodies.len() as nat,
                |i: int| MemoView::NotStarted,
            ));
        }
        r
    }

    /// Number of procedures whose graph was asked for.
    pub fn cache_size(&self) -> (n: usize)
        requires
            self.wf(),
        ensures
            n + not_started(self.memo()) == self.memo().len(),
    {
        let n = self.inline_memo.size();
        proof {
            lemma_started(&self.gli, self.inline_memo@, self.inline_memo@.len());
            assert(self.memo().take(self.memo().len() as int) =~= self.memo());
        }
        n
    }

    /// The interner of the locations of the graphs.
    pub fn gli(&self) -> (r: &GlobalLocationInterner)
        ensures
            *r == self.interner(),
    {
        &self.gli
    }

    /// The graph of the procedure `body_id`, if it was made.
    pub fn inlined_graph(&self, body_id: BodyId) -> (r: Option<&InlinedGraph>)
        requires
            self.wf(),
        ensures
            r is Some == (body_id < self.memo().len() && self.memo()[body_id as int] is Done),
            r matches Some(g) ==> g.wf(&self.interner()) && MemoView::Done(
                g.view(&self.interner()),
            ) == self.memo()[body_id as int],
    {
        let r = self.inline_memo.get(body_id);
        proof {
            if body_id < self.inline_memo@.len() {
                assert(entry_wf(self.inline_memo@[body_id as int], &self.gli));
            }
        }
        r
    }

    /// Whether the number names a procedure of the program.
    pub fn has_body(&self, body_id: BodyId) -> (r: bool)
        ensures
            r == (body_id < self.program().bodies.len()),
    {
        body_id < self.program.bodies.len()
    }

    /// The graph of the procedure `body_id` with its callees inlined. It is
    /// made if nobody has asked for it before.
    pub fn get_inlined_graph(&mut self, body_id: BodyId) -> (r: Option<&InlinedGraph>)
        requires
            old(self).wf(),
            body_id < old(self).program().bodies.len(),
        ensures
            final(self).wf(),
            final(self).program() == old(self).program(),
            final(self).oracle() == old(self).oracle(),
            final(self).ana_ctrl() == old(self).ana_ctrl(),
            final(self).interner().extends(&old(self).interner()),
            graph_for(
                old(self).program(),
                &old(self).ana_ctrl(),
                old(self).oracle(),
                old(self).memo(),
                body_id as nat,
            ) == (
                final(self).memo(),
                match r {
                    Some(g) => Some(g.view(&final(self).interner())),
                    None => None,
                },
            ),
            r matches Some(g) ==> g.wf(&final(self).interner()),
            r matches Some(g) ==> flows_typed(
                old(self).program(),
                g.view(&final(self).interner()).graph.flows,
            ) && nodes_known(old(self).program(), g.view(&final(self).interner()).graph.nodes)
                && !has_duplicate_call(g.view(&final(self).interner()).graph.nodes),
    {
        let ghost before = self.memo();
        proof {
            lemma_graph_for_typed(
                self.program,
                &self.ana_ctrl,
                self.oracle,
                before,
                body_id as nat,
            );
            lemma_graph_for_known(
                self.program,
                &self.ana_ctrl,
                self.oracle,
                before,
                body_id as nat,
            );
            if graph_for(self.program, &self.ana_ctrl, self.oracle, before, body_id as nat).1
                is Some {
                lemma_known_nodes_are_distinct(
                    self.program,
                    graph_for(
                        self.program,
                        &self.ana_ctrl,
                        self.oracle,
                        before,
                        body_id as nat,
                    ).1->0.graph.nodes,
                );
            }
        }
        let available = get_graph(
            self.program,
            &self.ana_ctrl,
            self.oracle,
            &mut self.gli,
            &mut self.inline_memo,
            body_id,
        );
        if available {
            self.inline_memo.get(body_id)
        } else {
            None
        }
    }

    /// The graph of the procedure `def_id` with its callees inlined, if the
    /// procedure has a body.
    pub fn get_inlined_graph_by_def_id(&mut self, def_id: DefId) -> (r: Option<&InlinedGraph>)
        requires
            old(self).wf(),
        ensures
            final(self).wf(),
            final(self).program() == old(self).program(),
            final(self).oracle() == old(self).oracle(),
            final(self).ana_ctrl() == old(self).ana_ctrl(),
            final(self).interner().extends(&old(self).interner()),
            match old(self).program().local(def_id) {
                Some(b) => graph_for(
                    old(self).program(),
                    &old(self).ana_ctrl(),
                    old(self).oracle(),
                    old(self).memo(),
                    b as nat,
                ) == (
                    final(self).memo(),
                    match r {
                        Some(g) => Some(g.view(&final(self).interner())),
                        None => None,
                    },
                ),
                None => r is None && final(self).memo() == old(self).memo(),
            },
            r matches Some(g) ==> g.wf(&final(self).interner()),
    {
        match self.program.as_local(def_id) {
            Some(b) => self.get_inlined_graph(b),
            None => None,
        }
    }

    /// The call-only flow of a graph that this inliner has made for the
    /// procedure `body_id`, whose formal arguments appear as locations in the
    /// block `arg_block`. The calls of such a graph stand at
    /// distinct locations, so every call gets its own entry.
    pub fn to_call_only_flow(
        &mut self,
        body_id: BodyId,
        arg_block: u32,
    ) -> (r: Option<CallOnlyFlow>)
        requires
            old(self).wf(),
        ensures
            final(self).wf(),
            final(self).program() == old(self).program(),
            final(self).oracle() == old(self).oracle(),
            final(self).ana_ctrl() == old(self).ana_ctrl(),
            final(self).memo() == old(self).memo(),
            final(self).interner().extends(&old(self).interner()),
            r is Some == (body_id < old(self).memo().len() && old(self).memo()[body_id as int]
                is Done),
            r matches Some(f) ==> f.wf(&final(self).interner()) && f.view(&final(self).interner())
                == call_only_flow(old(self).memo()[body_id as int]->Done_0.graph, body_id, arg_block),
    {
        match self.inline_memo.get(body_id) {
            Some(g) => {
                let ghost before = self.gli;
                proof {
                    assert(entry_wf(self.inline_memo@[body_id as int], &self.gli));
                    assert(memo_views(&self.gli, self.inline_memo@)[body_id as int]
                        == MemoView::Done(g.view(&self.gli)));
                    lemma_known_nodes_are_distinct(self.program, g.view(&self.gli).graph.nodes);
                }
                let r = g.to_call_only_flow(&mut self.gli, body_id, arg_block);
                proof {
                    lemma_memo_extends(&self.gli, &before, self.inline_memo@);
                }
                Some(r)
            },
            None => None,
        }
    }
}

} // verus!
