//! The result of the analysis: for every call, the locations that its
//! arguments and its execution depend on.

use crate::edge::{Edge, EdgeType, MAX_ARGUMENTS};
use crate::global_location::{BodyId, GlobalLocation, GlobalLocationInterner, Link, Location};
use crate::graph::{
    lemma_sources_listed_extends, sources_listed, DefId, FlowView, FlowGraph, Node, NodeView,
};
use crate::inline::{GraphView, InlinedGraph};
use crate::regal::{arg_num_to_local, argument_local};
use crate::prune::no_return_source;
use vstd::pervasive::unreached;
use vstd::prelude::*;

verus! {

/// The value of a [`CallDeps`].
pub struct CallDepsView {
    pub ctrl_deps: Set<Seq<Link>>,
    pub input_deps: Seq<Set<Seq<Link>>>,
}

/// What a call depends on.
#[derive(Debug)]
pub struct CallDeps {
    /// The locations that decide whether the call executes.
    pub ctrl_deps: Vec<GlobalLocation>,
    /// For each argument of the call, by position, the locations that its
    /// value comes from.
    pub input_deps: Vec<Vec<GlobalLocation>>,
}

/// The value of a [`CallOnlyFlow`].
pub struct CallOnlyFlowView {
    pub location_dependencies: Map<Seq<Link>, CallDepsView>,
    pub return_dependencies: Set<Seq<Link>>,
}

/// For every call of a graph what it depends on, and what the return value
/// depends on.
#[derive(Debug)]
pub struct CallOnlyFlow {
    /// The calls, each with what it depends on. No call is listed twice.
    pub location_dependencies: Vec<(GlobalLocation, CallDeps)>,
    /// The locations that the return value comes from.
    pub return_dependencies: Vec<GlobalLocation>,
}

/// The chains of the locations of a vector.
pub open spec fn chains(gli: &GlobalLocationInterner, v: Seq<GlobalLocation>) -> Set<Seq<Link>> {
    Set::new(|c: Seq<Link>| exists|k: int| 0 <= k < v.len() && gli.chain(#[trigger] v[k]) == c)
}

/// Whether every location of the vector is valid for the interner.
pub open spec fn all_valid(gli: &GlobalLocationInterner, v: Seq<GlobalLocation>) -> bool {
    forall|k: int| 0 <= k < v.len() ==> gli.valid(#[trigger] v[k])
}

impl CallDeps {
    /// Whether every location is valid for the interner.
    pub open spec fn wf(&self, gli: &GlobalLocationInterner) -> bool {
        &&& all_valid(gli, self.ctrl_deps@)
        &&& forall|i: int|
            0 <= i < self.input_deps.len() ==> all_valid(gli, (#[trigger] self.input_deps[i])@)
    }

    /// The value of the dependencies.
    pub open spec fn view(&self, gli: &GlobalLocationInterner) -> CallDepsView {
        CallDepsView {
            ctrl_deps: chains(gli, self.ctrl_deps@),
            input_deps: Seq::new(
                self.input_deps.len() as nat,
                |i: int| chains(gli, self.input_deps[i]@),
            ),
        }
    }

    /// Dependencies keep their value when the interner grows.
    pub proof fn lemma_extends(
        &self,
        gli: &GlobalLocationInterner,
        before: &GlobalLocationInterner,
    )
        requires
            gli.extends(before),
            self.wf(before),
        ensures
            self.wf(gli),
            self.view(gli) == self.view(before),
    {
        lemma_chains_extends(gli, before, self.ctrl_deps@);
        assert forall|i: int| 0 <= i < self.input_deps.len() implies all_valid(
            gli,
            (#[trigger] self.input_deps[i])@,
        ) && chains(gli, self.input_deps[i]@) == chains(before, self.input_deps[i]@) by {
            lemma_chains_extends(gli, before, self.input_deps[i]@);
        }
        assert(self.view(gli).input_deps =~= self.view(before).input_deps);
    }
}

/// The chains of valid locations stay the same when the interner grows.
pub proof fn lemma_chains_extends(
    gli: &GlobalLocationInterner,
    before: &GlobalLocationInterner,
    v: Seq<GlobalLocation>,
)
    requires
        gli.extends(before),
        all_valid(before, v),
    ensures
        all_valid(gli, v),
        chains(gli, v) == chains(before, v),
{
    assert forall|k: int| 0 <= k < v.len() implies gli.valid(#[trigger] v[k]) && gli.chain(v[k])
        == before.chain(v[k]) by {
        gli.lemma_extends_chain(before, v[k]);
    }
    assert forall|c: Seq<Link>| chains(gli, v).contains(c) == chains(before, v).contains(c) by {
        if chains(gli, v).contains(c) {
            let k = choose|k: int| 0 <= k < v.len() && gli.chain(#[trigger] v[k]) == c;
            assert(before.chain(v[k]) == c);
        }
        if chains(before, v).contains(c) {
            let k = choose|k: int| 0 <= k < v.len() && before.chain(#[trigger] v[k]) == c;
            assert(gli.chain(v[k]) == c);
        }
    }
    assert(chains(gli, v) =~= chains(before, v));
}

impl CallOnlyFlow {
    /// The invariant of the flow: every location is valid for the interner,
    /// and no call is listed twice.
    pub open spec fn wf(&self, gli: &GlobalLocationInterner) -> bool {
        &&& all_valid(gli, self.return_dependencies@)
        &&& forall|k: int|
            0 <= k < self.location_dependencies.len() ==> gli.valid(
                (#[trigger] self.location_dependencies[k]).0,
            ) && self.location_dependencies[k].1.wf(gli)
        &&& forall|i: int, j: int|
            0 <= i < j < self.location_dependencies.len() ==> (
            #[trigger] self.location_dependencies[i]).0 != (#[trigger] self.location_dependencies[j]).0
    }

    /// Position at which the call with the given chain is listed.
    pub open spec fn index_of(&self, gli: &GlobalLocationInterner, c: Seq<Link>) -> int {
        choose|k: int|
            0 <= k < self.location_dependencies.len() && gli.chain(
                (#[trigger] self.location_dependencies[k]).0,
            ) == c
    }

    /// The value of the flow.
    pub open spec fn view(&self, gli: &GlobalLocationInterner) -> CallOnlyFlowView {
        CallOnlyFlowView {
            location_dependencies: Map::new(
                |c: Seq<Link>|
                    exists|k: int|
                        0 <= k < self.location_dependencies.len() && gli.chain(
                            (#[trigger] self.location_dependencies[k]).0,
                        ) == c,
                |c: Seq<Link>| self.location_dependencies[self.index_of(gli, c)].1.view(gli),
            ),
            return_dependencies: chains(gli, self.return_dependencies@),
        }
    }
}

/// Where formal arguments stand as locations: in a block of their own, past
/// the blocks of the body, at the index of their variable.
pub open spec fn argument_location(arg_block: u32, a: u32) -> Location {
    Location { block: arg_block, statement_index: argument_local(a) as usize }
}

/// The location that a source of a flow stands for. A call stands for its
/// own location, a formal argument of the procedure `body_id` for its
/// location in the block of the arguments; the return node stands for none.
pub open spec fn source_chain(body_id: BodyId, arg_block: u32, x: NodeView) -> Option<Seq<Link>> {
    match x {
        NodeView::Call(c, _) => Some(c),
        NodeView::Argument(a) => Some(
            seq![Link { function: body_id, location: argument_location(arg_block, a) }],
        ),
        NodeView::Return => None,
    }
}

/// The locations from which a flow of type `ty` leads to the node `y`.
pub open spec fn sources(
    flows: Set<FlowView>,
    y: NodeView,
    ty: EdgeType,
    body_id: BodyId,
    arg_block: u32,
) -> Set<Seq<Link>> {
    Set::new(
        |c: Seq<Link>|
            exists|x: NodeView| #[trigger]
                flows.contains((x, y, ty)) && source_chain(body_id, arg_block, x) == Some(c),
    )
}

/// Whether a flow leads into the argument of the node `y` at position `a`.
pub open spec fn feeds_argument(flows: Set<FlowView>, y: NodeView, a: u32) -> bool {
    exists|x: NodeView| #[trigger] flows.contains((x, y, EdgeType::Data(a)))
}

/// One more than the highest argument position below `n` that a flow into
/// the node `y` has; 0 if there is none.
pub open spec fn width(flows: Set<FlowView>, y: NodeView, n: nat) -> nat
    decreases n,
{
    if n == 0 {
        0
    } else if feeds_argument(flows, y, (n - 1) as u32) {
        n
    } else {
        width(flows, y, (n - 1) as nat)
    }
}

/// What the node `y` depends on: the sources of the flows of control into
/// it, and for each argument position up to the highest that occurs, the
/// sources of the flows into the argument.
pub open spec fn deps_of(flows: Set<FlowView>, y: NodeView, body_id: BodyId, arg_block: u32) -> CallDepsView {
    CallDepsView {
        ctrl_deps: sources(flows, y, EdgeType::Control, body_id, arg_block),
        input_deps: Seq::new(
            width(flows, y, MAX_ARGUMENTS as nat),
            |i: int| sources(flows, y, EdgeType::Data(i as u32), body_id, arg_block),
        ),
    }
}

/// Whether two call nodes stand at the same location.
pub open spec fn has_duplicate_call(nodes: Set<NodeView>) -> bool {
    exists|c: Seq<Link>, d1: DefId, d2: DefId|
        d1 != d2 && #[trigger] nodes.contains(NodeView::Call(c, d1)) && #[trigger] nodes.contains(
            NodeView::Call(c, d2),
        )
}

/// The procedure that the call node at the location calls.
pub open spec fn callee_at(nodes: Set<NodeView>, c: Seq<Link>) -> DefId {
    choose|d: DefId| nodes.contains(NodeView::Call(c, d))
}

/// The call-only flow of a graph: for the location of each call node what
/// the node depends on, and the sources of the flows into the arguments of the
/// return node.
pub open spec fn call_only_flow(g: GraphView, body_id: BodyId, arg_block: u32) -> CallOnlyFlowView {
    CallOnlyFlowView {
        location_dependencies: Map::new(
            |c: Seq<Link>| exists|d: DefId| g.nodes.contains(NodeView::Call(c, d)),
            |c: Seq<Link>|
                deps_of(g.flows, NodeView::Call(c, callee_at(g.nodes, c)), body_id, arg_block),
        ),
        return_dependencies: Set::new(
            |c: Seq<Link>|
                exists|i: u32|
                    sources(g.flows, NodeView::Return, EdgeType::Data(i), body_id, arg_block).contains(
                        c,
                    ),
        ),
    }
}

/// What the width of the flows into a node tells.
pub proof fn lemma_width(flows: Set<FlowView>, y: NodeView, n: nat)
    ensures
        width(flows, y, n) <= n,
        width(flows, y, n) > 0 ==> feeds_argument(flows, y, (width(flows, y, n) - 1) as u32),
        forall|a: int|
            width(flows, y, n) <= a < n ==> !#[trigger] feeds_argument(flows, y, a as u32),
    decreases n,
{
    if n > 0 {
        lemma_width(flows, y, (n - 1) as nat);
    }
}

/// Puts the location into the vector unless it is there.
pub fn insert_location(v: &mut Vec<GlobalLocation>, gli: &GlobalLocationInterner, l: GlobalLocation)
    requires
        gli.valid(l),
        all_valid(gli, old(v)@),
    ensures
        all_valid(gli, final(v)@),
        chains(gli, final(v)@) == chains(gli, old(v)@).insert(gli.chain(l)),
{
    let mut i: usize = 0;
    while i < v.len()
        invariant
            i <= v.len(),
            v@ == old(v)@,
            all_valid(gli, v@),
            forall|k: int| 0 <= k < i ==> v[k] != l,
        decreases v.len() - i,
    {
        if v[i] == l {
            proof {
                assert(chains(gli, v@) =~= chains(gli, v@).insert(gli.chain(l)));
            }
            return ;
        }
        i = i + 1;
    }
    v.push(l);
    proof {
        let before = old(v)@;
        assert forall|c: Seq<Link>|
            chains(gli, v@).contains(c) == chains(gli, before).insert(gli.chain(l)).contains(c) by {
            if chains(gli, v@).contains(c) {
                let k = choose|k: int| 0 <= k < v.len() && gli.chain(#[trigger] v@[k]) == c;
                if k < before.len() {
                    assert(before[k] == v@[k]);
                }
            }
            if chains(gli, before).contains(c) {
                let k = choose|k: int| 0 <= k < before.len() && gli.chain(#[trigger] before[k]) == c;
                assert(v@[k] == before[k]);
            }
            if c == gli.chain(l) {
                assert(v@[before.len() as int] == l);
            }
        }
        assert(chains(gli, v@) =~= chains(gli, before).insert(gli.chain(l)));
    }
}

/// The location that the source of a flow stands for.
fn source_location(gli: &mut GlobalLocationInterner, body_id: BodyId, arg_block: u32, x: Node) -> (r:
    Option<GlobalLocation>)
    requires
        old(gli).wf(),
        x.valid(old(gli)),
    ensures
        final(gli).wf(),
        final(gli).extends(old(gli)),
        r matches Some(l) ==> final(gli).valid(l) && source_chain(
            body_id,
            arg_block,
            x.view(old(gli)),
        ) == Some(final(gli).chain(l)),
        r is None ==> source_chain(body_id, arg_block, x.view(old(gli))) is None,
{
    match x {
        Node::Call(l, _) => Some(l),
        Node::Argument(a) => Some(
            gli.globalize_location(
                Location { block: arg_block, statement_index: arg_num_to_local(a) as usize },
                body_id,
            ),
        ),
        Node::Return => None,
    }
}

/// The locations that stand for the first `k` listed sources with a flow of
/// type `ty`.
pub open spec fn sources_below(
    gli: &GlobalLocationInterner,
    incoming: Seq<(Node, Edge)>,
    ty: EdgeType,
    body_id: BodyId,
    arg_block: u32,
    k: int,
) -> Set<Seq<Link>> {
    Set::new(
        |c: Seq<Link>|
            exists|j: int|
                0 <= j < k && (#[trigger] incoming[j]).1.types().contains(ty) && source_chain(
                    body_id,
                    arg_block,
                    incoming[j].0.view(gli),
                ) == Some(c),
    )
}

/// One more than the highest argument position that the listed weights
/// have.
fn width_of(incoming: &Vec<(Node, Edge)>) -> (w: usize)
    ensures
        w <= MAX_ARGUMENTS,
        w > 0 ==> exists|j: int|
            0 <= j < incoming.len() && (#[trigger] incoming[j]).1.types().contains(
                EdgeType::Data((w - 1) as u32),
            ),
        forall|j: int, a: u32|
            0 <= j < incoming.len() && #[trigger] incoming[j].1.types().contains(
                EdgeType::Data(a),
            ) ==> a < w,
{
    let mut w: usize = 0;
    let mut k: usize = 0;
    while k < incoming.len()
        invariant
            k <= incoming.len(),
            w <= MAX_ARGUMENTS,
            w > 0 ==> exists|j: int|
                0 <= j < k && (#[trigger] incoming[j]).1.types().contains(
                    EdgeType::Data((w - 1) as u32),
                ),
            forall|j: int, a: u32|
                0 <= j < k && #[trigger] incoming[j].1.types().contains(EdgeType::Data(a)) ==> a
                    < w,
        decreases incoming.len() - k,
    {
        let weight = incoming[k].1;
        let mut i: u32 = 0;
        while i < MAX_ARGUMENTS
            invariant
                i <= MAX_ARGUMENTS,
                k < incoming.len(),
                weight == incoming[k as int].1,
                w <= MAX_ARGUMENTS,
                w > 0 ==> exists|j: int|
                    0 <= j < k + 1 && (#[trigger] incoming[j]).1.types().contains(
                        EdgeType::Data((w - 1) as u32),
                    ),
                forall|j: int, a: u32|
                    0 <= j < k && #[trigger] incoming[j].1.types().contains(EdgeType::Data(a))
                        ==> a < w,
                forall|a: u32| a < i && weight.types().contains(EdgeType::Data(a)) ==> a < w,
            decreases MAX_ARGUMENTS - i,
        {
            if weight.has_type(EdgeType::Data(i)) && (i as usize) + 1 > w {
                w = (i as usize) + 1;
                assert(incoming[k as int].1.types().contains(EdgeType::Data((w - 1) as u32)));
            }
            i = i + 1;
        }
        proof {
            assert forall|j: int, a: u32|
                0 <= j < k + 1 && #[trigger] incoming[j].1.types().contains(
                    EdgeType::Data(a),
                ) implies a < w by {
                if j == k {
                    weight.lemma_representable(EdgeType::Data(a));
                }
            }
        }
        k = k + 1;
    }
    w
}

/// Whether the second vector holds, for each listed source, the location
/// that the source stands for.
pub open spec fn located(
    gli: &GlobalLocationInterner,
    incoming: Seq<(Node, Edge)>,
    locations: Seq<Option<GlobalLocation>>,
    body_id: BodyId,
    arg_block: u32,
) -> bool {
    &&& locations.len() == incoming.len()
    &&& forall|k: int|
        0 <= k < incoming.len() ==> match #[trigger] locations[k] {
            Some(l) => gli.valid(l) && source_chain(body_id, arg_block, incoming[k].0.view(gli))
                == Some(gli.chain(l)),
            None => source_chain(body_id, arg_block, incoming[k].0.view(gli)) is None,
        }
}

/// The locations that the listed sources stand for.
fn locate(
    gli: &mut GlobalLocationInterner,
    incoming: &Vec<(Node, Edge)>,
    body_id: BodyId,
    arg_block: u32,
) -> (r: Vec<Option<GlobalLocation>>)
    requires
        old(gli).wf(),
        forall|k: int| 0 <= k < incoming.len() ==> (#[trigger] incoming[k]).0.valid(old(gli)),
    ensures
        final(gli).wf(),
        final(gli).extends(old(gli)),
        located(final(gli), incoming@, r@, body_id, arg_block),
{
    let mut r: Vec<Option<GlobalLocation>> = Vec::new();
    let mut k: usize = 0;
    while k < incoming.len()
        invariant
            k <= incoming.len(),
            r.len() == k,
            gli.wf(),
            gli.extends(old(gli)),
            forall|j: int| 0 <= j < incoming.len() ==> (#[trigger] incoming[j]).0.valid(old(gli)),
            forall|j: int|
                0 <= j < k ==> match #[trigger] r[j] {
                    Some(l) => gli.valid(l) && source_chain(
                        body_id,
                        arg_block,
                        incoming[j].0.view(old(gli)),
                    ) == Some(gli.chain(l)),
                    None => source_chain(body_id, arg_block, incoming[j].0.view(old(gli))) is None,
                },
        decreases incoming.len() - k,
    {
        let ghost gli_before = *gli;
        let ghost r_before = r@;
        proof {
            incoming[k as int].0.lemma_extends_view(gli, old(gli));
        }
        let l = source_location(gli, body_id, arg_block, incoming[k].0);
        r.push(l);
        proof {
            assert forall|j: int| 0 <= j < k + 1 implies match #[trigger] r[j] {
                Some(l) => gli.valid(l) && source_chain(
                    body_id,
                    arg_block,
                    incoming[j].0.view(old(gli)),
                ) == Some(gli.chain(l)),
                None => source_chain(body_id, arg_block, incoming[j].0.view(old(gli))) is None,
            } by {
                if j < k {
                    assert(r[j] == r_before[j]);
                    match r_before[j] {
                        Some(l) => {
                            gli.lemma_extends_chain(&gli_before, l);
                        },
                        None => {},
                    }
                }
            }
        }
        k = k + 1;
    }
    proof {
        assert forall|j: int| 0 <= j < incoming.len() implies (#[trigger] incoming[j]).0.view(gli)
            == incoming[j].0.view(old(gli)) by {
            incoming[j].0.lemma_extends_view(gli, old(gli));
        }
    }
    r
}

/// The locations that stand for the listed sources with a flow of type
/// `ty`, each once.
fn collect(
    gli: &GlobalLocationInterner,
    incoming: &Vec<(Node, Edge)>,
    locations: &Vec<Option<GlobalLocation>>,
    ty: EdgeType,
    Ghost(body_id): Ghost<BodyId>,
    Ghost(arg_block): Ghost<u32>,
) -> (r: Vec<GlobalLocation>)
    requires
        located(gli, incoming@, locations@, body_id, arg_block),
    ensures
        all_valid(gli, r@),
        chains(gli, r@) == sources_below(
            gli,
            incoming@,
            ty,
            body_id,
            arg_block,
            incoming.len() as int,
        ),
{
    let mut r: Vec<GlobalLocation> = Vec::new();
    let mut k: usize = 0;
    proof {
        assert(chains(gli, r@) =~= sources_below(gli, incoming@, ty, body_id, arg_block, 0));
    }
    while k < incoming.len()
        invariant
            k <= incoming.len(),
            located(gli, incoming@, locations@, body_id, arg_block),
            all_valid(gli, r@),
            chains(gli, r@) == sources_below(gli, incoming@, ty, body_id, arg_block, k as int),
        decreases incoming.len() - k,
    {
        proof {
            lemma_sources_below_step(gli, incoming@, ty, body_id, arg_block, k as int);
        }
        if incoming[k].1.has_type(ty) {
            match locations[k] {
                Some(l) => {
                    insert_location(&mut r, gli, l);
                },
                None => {},
            }
        }
        k = k + 1;
    }
    r
}

/// What the node `n` of the graph depends on.
pub fn get_dependencies(
    g: &FlowGraph,
    gli: &mut GlobalLocationInterner,
    n: Node,
    body_id: BodyId,
    arg_block: u32,
) -> (r: CallDeps)
    requires
        old(gli).wf(),
        g.wf(),
        g.valid(old(gli)),
        g.no_empty_edges(),
        n.valid(old(gli)),
    ensures
        final(gli).wf(),
        final(gli).extends(old(gli)),
        r.wf(final(gli)),
        r.view(final(gli)) == deps_of(g.flows(old(gli)), n.view(old(gli)), body_id, arg_block),
{
    let ghost flows = g.flows(gli);
    let ghost y = n.view(gli);
    let incoming = g.incoming_at(gli, n);
    let w = width_of(&incoming);
    proof {
        lemma_width(flows, y, MAX_ARGUMENTS as nat);
        let m = width(flows, y, MAX_ARGUMENTS as nat);
        if w > 0 {
            let j = choose|j: int|
                0 <= j < incoming.len() && (#[trigger] incoming[j]).1.types().contains(
                    EdgeType::Data((w - 1) as u32),
                );
            assert(flows.contains((incoming[j].0.view(gli), y, EdgeType::Data((w - 1) as u32))));
            assert(feeds_argument(flows, y, (w - 1) as u32));
            if m < w {
                assert(!feeds_argument(flows, y, ((w - 1) as int) as u32));
            }
        }
        if m > 0 {
            let x = choose|x: NodeView| #[trigger]
                flows.contains((x, y, EdgeType::Data((m - 1) as u32)));
            assert(flows.contains((x, y, EdgeType::Data((m - 1) as u32))));
        }
        assert(w == m);
    }
    let ghost gli_before = *gli;
    let locations = locate(gli, &incoming, body_id, arg_block);
    proof {
        lemma_sources_listed_extends(gli, &gli_before, flows, y, incoming@);
        lemma_sources_below_all(gli, flows, y, incoming@, EdgeType::Control, body_id, arg_block);
    }
    let ctrl_deps = collect(
        gli,
        &incoming,
        &locations,
        EdgeType::Control,
        Ghost(body_id),
        Ghost(arg_block),
    );
    let mut input_deps: Vec<Vec<GlobalLocation>> = Vec::new();
    let mut i: usize = 0;
    while i < w
        invariant
            i <= w,
            w <= MAX_ARGUMENTS,
            input_deps.len() == i,
            sources_listed(gli, flows, y, incoming@),
            located(gli, incoming@, locations@, body_id, arg_block),
            forall|j: int| 0 <= j < i ==> all_valid(gli, (#[trigger] input_deps[j])@),
            forall|j: int|
                0 <= j < i ==> chains(gli, (#[trigger] input_deps[j])@) == sources(
                    flows,
                    y,
                    EdgeType::Data(j as u32),
                    body_id,
                    arg_block,
                ),
        decreases w - i,
    {
        let deps = collect(
            gli,
            &incoming,
            &locations,
            EdgeType::Data(i as u32),
            Ghost(body_id),
            Ghost(arg_block),
        );
        proof {
            lemma_sources_below_all(
                gli,
                flows,
                y,
                incoming@,
                EdgeType::Data(i as u32),
                body_id,
                arg_block,
            );
        }
        input_deps.push(deps);
        i = i + 1;
    }
    let r = CallDeps { ctrl_deps, input_deps };
    proof {
        assert(r.view(gli).input_deps =~= deps_of(flows, y, body_id, arg_block).input_deps);
    }
    r
}

/// The locations that stand for one more listed source.
pub proof fn lemma_sources_below_step(
    gli: &GlobalLocationInterner,
    incoming: Seq<(Node, Edge)>,
    ty: EdgeType,
    body_id: BodyId,
    arg_block: u32,
    k: int,
)
    requires
        0 <= k < incoming.len(),
    ensures
        sources_below(gli, incoming, ty, body_id, arg_block, k + 1) == if incoming[k].1.types().contains(
            ty,
        ) && source_chain(body_id, arg_block, incoming[k].0.view(gli)) is Some {
            sources_below(gli, incoming, ty, body_id, arg_block, k).insert(
                source_chain(body_id, arg_block, incoming[k].0.view(gli))->0,
            )
        } else {
            sources_below(gli, incoming, ty, body_id, arg_block, k)
        },
{
    let before = sources_below(gli, incoming, ty, body_id, arg_block, k);
    let after = sources_below(gli, incoming, ty, body_id, arg_block, k + 1);
    let hit = incoming[k].1.types().contains(ty) && source_chain(
        body_id,
        arg_block,
        incoming[k].0.view(gli),
    ) is Some;
    let want = if hit {
        before.insert(source_chain(body_id, arg_block, incoming[k].0.view(gli))->0)
    } else {
        before
    };
    assert forall|c: Seq<Link>| after.contains(c) == want.contains(c) by {
        if after.contains(c) {
            let j = choose|j: int|
                0 <= j < k + 1 && (#[trigger] incoming[j]).1.types().contains(ty) && source_chain(
                    body_id,
                    arg_block,
                    incoming[j].0.view(gli),
                ) == Some(c);
            if j < k {
                assert(before.contains(c));
            }
        }
        if before.contains(c) {
            let j = choose|j: int|
                0 <= j < k && (#[trigger] incoming[j]).1.types().contains(ty) && source_chain(
                    body_id,
                    arg_block,
                    incoming[j].0.view(gli),
                ) == Some(c);
            assert(after.contains(c));
        }
        if hit && c == source_chain(body_id, arg_block, incoming[k].0.view(gli))->0 {
            assert(incoming[k].1.types().contains(ty));
        }
    }
    assert(after =~= want);
}

/// The locations that stand for all listed sources are the sources of the
/// flows.
pub proof fn lemma_sources_below_all(
    gli: &GlobalLocationInterner,
    flows: Set<FlowView>,
    y: NodeView,
    incoming: Seq<(Node, Edge)>,
    ty: EdgeType,
    body_id: BodyId,
    arg_block: u32,
)
    requires
        sources_listed(gli, flows, y, incoming),
    ensures
        sources_below(gli, incoming, ty, body_id, arg_block, incoming.len() as int) == sources(
            flows,
            y,
            ty,
            body_id,
            arg_block,
        ),
{
    let all = sources_below(gli, incoming, ty, body_id, arg_block, incoming.len() as int);
    let want = sources(flows, y, ty, body_id, arg_block);
    assert forall|c: Seq<Link>| all.contains(c) == want.contains(c) by {
        if all.contains(c) {
            let j = choose|j: int|
                0 <= j < incoming.len() && (#[trigger] incoming[j]).1.types().contains(ty)
                    && source_chain(body_id, arg_block, incoming[j].0.view(gli)) == Some(c);
            assert(flows.contains((incoming[j].0.view(gli), y, ty)));
        }
        if want.contains(c) {
            let x = choose|x: NodeView| #[trigger]
                flows.contains((x, y, ty)) && source_chain(body_id, arg_block, x) == Some(c);
            let j = choose|j: int|
                0 <= j < incoming.len() && (#[trigger] incoming[j]).0.view(gli) == x
                    && incoming[j].1.types().contains(ty);
            assert(incoming[j].1.types().contains(ty));
        }
    }
    assert(all =~= want);
}

/// The sources of the flows into the arguments of the return node.
pub open spec fn return_sources(flows: Set<FlowView>, body_id: BodyId, arg_block: u32) -> Set<Seq<Link>> {
    Set::new(
        |c: Seq<Link>|
            exists|i: u32|
                sources(flows, NodeView::Return, EdgeType::Data(i), body_id, arg_block).contains(c),
    )
}

/// The sources of the flows into the first `n` arguments of the return
/// node.
pub open spec fn return_sources_below(
    flows: Set<FlowView>,
    body_id: BodyId,
    arg_block: u32,
    n: int,
) -> Set<Seq<Link>> {
    Set::new(
        |c: Seq<Link>|
            exists|i: u32|
                i < n && sources(
                    flows,
                    NodeView::Return,
                    EdgeType::Data(i),
                    body_id,
                    arg_block,
                ).contains(c),
    )
}

/// Past the width of the flows into the return node there are no sources.
pub proof fn lemma_return_sources(flows: Set<FlowView>, body_id: BodyId, arg_block: u32)
    requires
        forall|f: FlowView| #[trigger] flows.contains(f) ==> f.2.representable(),
    ensures
        return_sources_below(
            flows,
            body_id,
            arg_block,
            width(flows, NodeView::Return, MAX_ARGUMENTS as nat) as int,
        ) == return_sources(flows, body_id, arg_block),
{
    let w = width(flows, NodeView::Return, MAX_ARGUMENTS as nat);
    lemma_width(flows, NodeView::Return, MAX_ARGUMENTS as nat);
    let below = return_sources_below(flows, body_id, arg_block, w as int);
    let all = return_sources(flows, body_id, arg_block);
    assert forall|c: Seq<Link>| below.contains(c) == all.contains(c) by {
        if all.contains(c) {
            let a = choose|a: u32|
                sources(flows, NodeView::Return, EdgeType::Data(a), body_id, arg_block).contains(c);
            let x = choose|x: NodeView| #[trigger]
                flows.contains((x, NodeView::Return, EdgeType::Data(a))) && source_chain(
                    body_id,
                    arg_block,
                    x,
                ) == Some(c);
            assert(feeds_argument(flows, NodeView::Return, a));
            assert(a < MAX_ARGUMENTS);
            if a >= w {
                assert(!feeds_argument(flows, NodeView::Return, (a as int) as u32));
            }
        }
    }
    assert(below =~= all);
}

/// Puts the locations of `more` into the vector.
pub fn extend_locations(
    v: &mut Vec<GlobalLocation>,
    gli: &GlobalLocationInterner,
    more: &Vec<GlobalLocation>,
)
    requires
        all_valid(gli, old(v)@),
        all_valid(gli, more@),
    ensures
        all_valid(gli, final(v)@),
        chains(gli, final(v)@) == chains(gli, old(v)@).union(chains(gli, more@)),
{
    let mut k: usize = 0;
    proof {
        assert(chains(gli, more@.take(0)) =~= Set::<Seq<Link>>::empty());
        assert(chains(gli, v@) =~= chains(gli, old(v)@).union(chains(gli, more@.take(0))));
    }
    while k < more.len()
        invariant
            k <= more.len(),
            all_valid(gli, v@),
            all_valid(gli, more@),
            chains(gli, v@) == chains(gli, old(v)@).union(chains(gli, more@.take(k as int))),
        decreases more.len() - k,
    {
        insert_location(v, gli, more[k]);
        proof {
            let before = chains(gli, more@.take(k as int));
            let after = chains(gli, more@.take(k as int + 1));
            assert forall|c: Seq<Link>| after.contains(c) == before.insert(
                gli.chain(more@[k as int]),
            ).contains(c) by {
                if after.contains(c) {
                    let j = choose|j: int|
                        0 <= j < k + 1 && gli.chain(#[trigger] more@.take(k as int + 1)[j]) == c;
                    if j < k {
                        assert(more@.take(k as int)[j] == more@.take(k as int + 1)[j]);
                    }
                }
                if before.contains(c) {
                    let j = choose|j: int|
                        0 <= j < k && gli.chain(#[trigger] more@.take(k as int)[j]) == c;
                    assert(more@.take(k as int + 1)[j] == more@.take(k as int)[j]);
                }
                if c == gli.chain(more@[k as int]) {
                    assert(more@.take(k as int + 1)[k as int] == more@[k as int]);
                }
            }
            assert(after =~= before.insert(gli.chain(more@[k as int])));
            assert(chains(gli, v@) =~= chains(gli, old(v)@).union(after));
        }
        k = k + 1;
    }
    proof {
        assert(more@.take(more.len() as int) =~= more@);
    }
}

/// The locations that the return value of the graph comes from.
pub fn return_dependencies(
    g: &FlowGraph,
    gli: &mut GlobalLocationInterner,
    body_id: BodyId,
    arg_block: u32,
) -> (r: Vec<GlobalLocation>)
    requires
        old(gli).wf(),
        g.wf(),
        g.valid(old(gli)),
        g.no_empty_edges(),
    ensures
        final(gli).wf(),
        final(gli).extends(old(gli)),
        all_valid(final(gli), r@),
        chains(final(gli), r@) == return_sources(g.flows(old(gli)), body_id, arg_block),
{
    let ghost flows = g.flows(gli);
    proof {
        assert forall|f: FlowView| #[trigger] flows.contains(f) implies f.2.representable() by {
            g.edges()[(Node::find(gli, f.0)->0, Node::find(gli, f.1)->0)].lemma_representable(f.2);
        }
        lemma_return_sources(flows, body_id, arg_block);
    }
    let deps = get_dependencies(g, gli, Node::Return, body_id, arg_block);
    let mut r: Vec<GlobalLocation> = Vec::new();
    let mut i: usize = 0;
    proof {
        lemma_width(flows, NodeView::Return, MAX_ARGUMENTS as nat);
        assert(deps.view(gli).input_deps.len() == deps.input_deps.len());
        assert(chains(gli, r@) =~= return_sources_below(flows, body_id, arg_block, 0));
    }
    while i < deps.input_deps.len()
        invariant
            i <= deps.input_deps.len(),
            deps.input_deps.len() == width(flows, NodeView::Return, MAX_ARGUMENTS as nat),
            deps.input_deps.len() <= MAX_ARGUMENTS,
            deps.wf(gli),
            deps.view(gli) == deps_of(flows, NodeView::Return, body_id, arg_block),
            all_valid(gli, r@),
            chains(gli, r@) == return_sources_below(flows, body_id, arg_block, i as int),
        decreases deps.input_deps.len() - i,
    {
        let ghost before = return_sources_below(flows, body_id, arg_block, i as int);
        extend_locations(&mut r, gli, &deps.input_deps[i]);
        proof {
            let added = sources(
                flows,
                NodeView::Return,
                EdgeType::Data(i as u32),
                body_id,
                arg_block,
            );
            assert(deps.view(gli).input_deps[i as int] == chains(gli, deps.input_deps[i as int]@));
            assert(deps_of(flows, NodeView::Return, body_id, arg_block).input_deps[i as int]
                == added);
            let after = return_sources_below(flows, body_id, arg_block, i as int + 1);
            assert forall|c: Seq<Link>| after.contains(c) == before.union(added).contains(c) by {
                if after.contains(c) {
                    let a = choose|a: u32|
                        a < i + 1 && sources(
                            flows,
                            NodeView::Return,
                            EdgeType::Data(a),
                            body_id,
                            arg_block,
                        ).contains(c);
                    if a < i {
                        assert(before.contains(c));
                    }
                }
                if before.contains(c) {
                    let a = choose|a: u32|
                        a < i && sources(
                            flows,
                            NodeView::Return,
                            EdgeType::Data(a),
                            body_id,
                            arg_block,
                        ).contains(c);
                    assert(a < i + 1);
                }
                if added.contains(c) {
                    assert((i as u32) < i + 1);
                }
            }
            assert(after =~= before.union(added));
        }
        i = i + 1;
    }
    r
}

/// Whether one of the listed calls stands at the location.
fn lists_call(entries: &Vec<(GlobalLocation, CallDeps)>, l: GlobalLocation) -> (r: bool)
    ensures
        r == exists|j: int| 0 <= j < entries.len() && (#[trigger] entries[j]).0 == l,
{
    let mut j: usize = 0;
    while j < entries.len()
        invariant
            j <= entries.len(),
            forall|i: int| 0 <= i < j ==> (#[trigger] entries[i]).0 != l,
        decreases entries.len() - j,
    {
        if entries[j].0 == l {
            return true;
        }
        j = j + 1;
    }
    false
}

/// Whether the entries list the call nodes among the first `k` nodes, each
/// with what it depends on.
pub open spec fn entries_ok(
    gli: &GlobalLocationInterner,
    flows: Set<FlowView>,
    nodes: Seq<Node>,
    entries: Seq<(GlobalLocation, CallDeps)>,
    callees: Seq<DefId>,
    body_id: BodyId,
    arg_block: u32,
    k: int,
) -> bool {
    &&& callees.len() == entries.len()
    &&& forall|j: int|
        0 <= j < entries.len() ==> gli.valid((#[trigger] entries[j]).0) && entries[j].1.wf(gli)
            && entries[j].1.view(gli) == deps_of(
            flows,
            NodeView::Call(gli.chain(entries[j].0), callees[j]),
            body_id,
            arg_block,
        ) && exists|m: int| 0 <= m < k && nodes[m] == Node::Call(entries[j].0, callees[j])
    &&& forall|m: int|
        0 <= m < k ==> (#[trigger] nodes[m] matches Node::Call(l, d) ==> exists|j: int|
            0 <= j < entries.len() && (#[trigger] entries[j]).0 == l && callees[j] == d)
    &&& forall|i: int, j: int|
        0 <= i < j < entries.len() ==> (#[trigger] entries[i]).0 != (#[trigger] entries[j]).0
}

/// Entries stay in order when the interner grows.
proof fn lemma_entries_extend(
    gli: &GlobalLocationInterner,
    before: &GlobalLocationInterner,
    flows: Set<FlowView>,
    nodes: Seq<Node>,
    entries: Seq<(GlobalLocation, CallDeps)>,
    callees: Seq<DefId>,
    body_id: BodyId,
    arg_block: u32,
    k: int,
)
    requires
        gli.extends(before),
        entries_ok(before, flows, nodes, entries, callees, body_id, arg_block, k),
    ensures
        entries_ok(gli, flows, nodes, entries, callees, body_id, arg_block, k),
{
    assert forall|j: int| 0 <= j < entries.len() implies gli.valid((#[trigger] entries[j]).0)
        && entries[j].1.wf(gli) && entries[j].1.view(gli) == deps_of(
        flows,
        NodeView::Call(gli.chain(entries[j].0), callees[j]),
        body_id,
        arg_block,
    ) && exists|m: int| 0 <= m < k && nodes[m] == Node::Call(entries[j].0, callees[j]) by {
        entries[j].1.lemma_extends(gli, before);
        gli.lemma_extends_chain(before, entries[j].0);
    }
}

/// One more entry, for the call node at position `k`.
proof fn lemma_entries_push(
    gli: &GlobalLocationInterner,
    flows: Set<FlowView>,
    nodes: Seq<Node>,
    entries: Seq<(GlobalLocation, CallDeps)>,
    callees: Seq<DefId>,
    body_id: BodyId,
    arg_block: u32,
    k: int,
    l: GlobalLocation,
    d: DefId,
    deps: CallDeps,
)
    requires
        0 <= k < nodes.len(),
        nodes[k] == Node::Call(l, d),
        entries_ok(gli, flows, nodes, entries, callees, body_id, arg_block, k),
        forall|j: int| 0 <= j < entries.len() ==> (#[trigger] entries[j]).0 != l,
        gli.valid(l),
        deps.wf(gli),
        deps.view(gli) == deps_of(flows, NodeView::Call(gli.chain(l), d), body_id, arg_block),
    ensures
        entries_ok(
            gli,
            flows,
            nodes,
            entries.push((l, deps)),
            callees.push(d),
            body_id,
            arg_block,
            k + 1,
        ),
{
    let e2 = entries.push((l, deps));
    let c2 = callees.push(d);
    assert forall|j: int| 0 <= j < e2.len() implies gli.valid((#[trigger] e2[j]).0) && e2[j].1.wf(
        gli,
    ) && e2[j].1.view(gli) == deps_of(
        flows,
        NodeView::Call(gli.chain(e2[j].0), c2[j]),
        body_id,
        arg_block,
    ) && exists|m: int| 0 <= m < k + 1 && nodes[m] == Node::Call(e2[j].0, c2[j]) by {
        if j < entries.len() {
            assert(e2[j] == entries[j]);
            let m = choose|m: int| 0 <= m < k && nodes[m] == Node::Call(entries[j].0, callees[j]);
            assert(0 <= m < k + 1 && nodes[m] == Node::Call(e2[j].0, c2[j]));
        } else {
            assert(nodes[k] == Node::Call(e2[j].0, c2[j]));
        }
    }
    assert forall|m: int| 0 <= m < k + 1 implies (#[trigger] nodes[m] matches Node::Call(l2, d2)
        ==> exists|j: int| 0 <= j < e2.len() && (#[trigger] e2[j]).0 == l2 && c2[j] == d2) by {
        match nodes[m] {
            Node::Call(l2, d2) => {
                if m < k {
                    let j = choose|j: int|
                        0 <= j < entries.len() && (#[trigger] entries[j]).0 == l2 && callees[j]
                            == d2;
                    assert(e2[j].0 == l2 && c2[j] == d2);
                } else {
                    assert(e2[entries.len() as int].0 == l2 && c2[entries.len() as int] == d2);
                }
            },
            _ => {},
        }
    }
    assert forall|i: int, j: int| 0 <= i < j < e2.len() implies (#[trigger] e2[i]).0 != (
    #[trigger] e2[j]).0 by {
        if j < entries.len() {
            assert(e2[i] == entries[i] && e2[j] == entries[j]);
        } else {
            assert(e2[i] == entries[i]);
        }
    }
}

/// A node that is skipped leaves the entries in order.
proof fn lemma_entries_skip(
    gli: &GlobalLocationInterner,
    flows: Set<FlowView>,
    nodes: Seq<Node>,
    entries: Seq<(GlobalLocation, CallDeps)>,
    callees: Seq<DefId>,
    body_id: BodyId,
    arg_block: u32,
    k: int,
)
    requires
        0 <= k < nodes.len(),
        !(nodes[k] is Call),
        entries_ok(gli, flows, nodes, entries, callees, body_id, arg_block, k),
    ensures
        entries_ok(gli, flows, nodes, entries, callees, body_id, arg_block, k + 1),
{
    assert forall|j: int| 0 <= j < entries.len() implies exists|m: int|
        0 <= m < k + 1 && nodes[m] == Node::Call((#[trigger] entries[j]).0, callees[j]) by {
        let m = choose|m: int| 0 <= m < k && nodes[m] == Node::Call(entries[j].0, callees[j]);
        assert(0 <= m < k + 1 && nodes[m] == Node::Call(entries[j].0, callees[j]));
    }
}

/// Entries that list every call node of a graph have the value of the
/// graph's call-only flow, and no two call nodes stand at one location.
proof fn lemma_entries_view(
    g: &FlowGraph,
    gli: &GlobalLocationInterner,
    nodes: Seq<Node>,
    f: &CallOnlyFlow,
    callees: Seq<DefId>,
    body_id: BodyId,
    arg_block: u32,
)
    requires
        gli.wf(),
        g.wf(),
        g.valid(gli),
        nodes.no_duplicates(),
        nodes.to_set() == g.nodes(),
        entries_ok(
            gli,
            g.flows(gli),
            nodes,
            f.location_dependencies@,
            callees,
            body_id,
            arg_block,
            nodes.len() as int,
        ),
        all_valid(gli, f.return_dependencies@),
        chains(gli, f.return_dependencies@) == return_sources(g.flows(gli), body_id, arg_block),
    ensures
        !has_duplicate_call(g.node_views(gli)),
        f.wf(gli),
        f.view(gli) == call_only_flow(
            GraphView { nodes: g.node_views(gli), flows: g.flows(gli) },
            body_id,
            arg_block,
        ),
{
    let flows = g.flows(gli);
    let node_views = g.node_views(gli);
    let entries = f.location_dependencies@;
    assert forall|c: Seq<Link>, d1: DefId, d2: DefId|
        #[trigger] node_views.contains(NodeView::Call(c, d1)) && #[trigger] node_views.contains(
            NodeView::Call(c, d2),
        ) implies d1 == d2 by {
        Node::lemma_found(gli, NodeView::Call(c, d1));
        Node::lemma_found(gli, NodeView::Call(c, d2));
        let n1 = Node::find(gli, NodeView::Call(c, d1))->0;
        let n2 = Node::find(gli, NodeView::Call(c, d2))->0;
        assert(nodes.to_set().contains(n1));
        assert(nodes.to_set().contains(n2));
        let m1 = choose|m: int| 0 <= m < nodes.len() && nodes[m] == n1;
        let m2 = choose|m: int| 0 <= m < nodes.len() && nodes[m] == n2;
        let j1 = choose|j: int|
            0 <= j < entries.len() && (#[trigger] entries[j]).0 == n1->Call_0 && callees[j] == d1;
        let j2 = choose|j: int|
            0 <= j < entries.len() && (#[trigger] entries[j]).0 == n2->Call_0 && callees[j] == d2;
        assert(n1->Call_0 == n2->Call_0);
        if j1 != j2 {
            if j1 < j2 {
                assert(entries[j1].0 != entries[j2].0);
            } else {
                assert(entries[j2].0 != entries[j1].0);
            }
        }
    }
    let want = call_only_flow(GraphView { nodes: node_views, flows }, body_id, arg_block);
    let got = f.view(gli);
    assert forall|c: Seq<Link>| got.location_dependencies.dom().contains(c)
        == want.location_dependencies.dom().contains(c) by {
        if got.location_dependencies.dom().contains(c) {
            let j = choose|j: int|
                0 <= j < entries.len() && gli.chain((#[trigger] f.location_dependencies[j]).0) == c;
            let m = choose|m: int|
                0 <= m < nodes.len() && nodes[m] == Node::Call(entries[j].0, callees[j]);
            assert(nodes.to_set().contains(nodes[m]));
            g.lemma_node_view(gli, nodes[m]);
            assert(node_views.contains(NodeView::Call(c, callees[j])));
        }
        if want.location_dependencies.dom().contains(c) {
            let d = choose|d: DefId| node_views.contains(NodeView::Call(c, d));
            Node::lemma_found(gli, NodeView::Call(c, d));
            let n = Node::find(gli, NodeView::Call(c, d))->0;
            assert(nodes.to_set().contains(n));
            let m = choose|m: int| 0 <= m < nodes.len() && nodes[m] == n;
            let j = choose|j: int|
                0 <= j < entries.len() && (#[trigger] entries[j]).0 == n->Call_0 && callees[j] == d;
            assert(gli.chain(f.location_dependencies[j].0) == c);
        }
    }
    assert forall|c: Seq<Link>| #[trigger]
        got.location_dependencies.dom().contains(c) implies got.location_dependencies[c]
        == want.location_dependencies[c] by {
        let j = f.index_of(gli, c);
        let m = choose|m: int|
            0 <= m < nodes.len() && nodes[m] == Node::Call(entries[j].0, callees[j]);
        assert(nodes.to_set().contains(nodes[m]));
        g.lemma_node_view(gli, nodes[m]);
        assert(node_views.contains(NodeView::Call(c, callees[j])));
        let d = callee_at(node_views, c);
        assert(node_views.contains(NodeView::Call(c, d)));
    }
    assert(got.location_dependencies =~= want.location_dependencies);
    assert(want.return_dependencies =~= return_sources(flows, body_id, arg_block));
}

impl InlinedGraph {
    /// The call-only flow of the graph: for each call what it depends on,
    /// and what the return value depends on. The formal arguments of the
    /// procedure `body_id`, which the graph describes, appear as locations in
    /// the block `arg_block`. No two call nodes of the graph may stand at
    /// the same location, and no flow may start at the return value; both
    /// hold of every graph that the inliner makes.
    pub fn to_call_only_flow(
        &self,
        gli: &mut GlobalLocationInterner,
        body_id: BodyId,
        arg_block: u32,
    ) -> (f: CallOnlyFlow)
        requires
            old(gli).wf(),
            self.wf(old(gli)),
            no_return_source(self.view(old(gli)).graph.flows),
            !has_duplicate_call(self.view(old(gli)).graph.nodes),
        ensures
            final(gli).wf(),
            final(gli).extends(old(gli)),
            f.wf(final(gli)),
            f.view(final(gli)) == call_only_flow(self.view(old(gli)).graph, body_id, arg_block),
    {
        let ghost flows = self.graph.flows(gli);
        let ghost node_views = self.graph.node_views(gli);
        let return_dependencies = return_dependencies(&self.graph, gli, body_id, arg_block);
        proof {
            self.graph.lemma_extends(gli, old(gli));
        }
        let nodes = self.graph.node_list();
        let mut entries: Vec<(GlobalLocation, CallDeps)> = Vec::new();
        let ghost mut callees: Seq<DefId> = Seq::empty();
        let mut k: usize = 0;
        while k < nodes.len()
            invariant
                k <= nodes.len(),
                gli.wf(),
                gli.extends(old(gli)),
                self.graph.wf(),
                self.graph.valid(gli),
                self.graph.no_empty_edges(),
                self.graph.flows(gli) == flows,
                self.graph.node_views(gli) == node_views,
                node_views == self.view(old(gli)).graph.nodes,
                !has_duplicate_call(node_views),
                flows == self.view(old(gli)).graph.flows,
                nodes@.no_duplicates(),
                nodes@.to_set() == self.graph.nodes(),
                all_valid(gli, return_dependencies@),
                chains(gli, return_dependencies@) == return_sources(flows, body_id, arg_block),
                entries_ok(gli, flows, nodes@, entries@, callees, body_id, arg_block, k as int),
            decreases nodes.len() - k,
        {
            match nodes[k] {
                Node::Call(l, d) => {
                    proof {
                        assert(nodes@.to_set().contains(nodes[k as int]));
                    }
                    if lists_call(&entries, l) {
                        proof {
                            let j = choose|j: int|
                                0 <= j < entries.len() && (#[trigger] entries[j]).0 == l;
                            let m = choose|m: int|
                                0 <= m < k && nodes[m] == Node::Call(entries[j].0, callees[j]);
                            assert(nodes[m] != nodes[k as int]);
                            assert(nodes@.to_set().contains(nodes[m]));
                            self.graph.lemma_node_view(gli, nodes[m]);
                            self.graph.lemma_node_view(gli, nodes[k as int]);
                            assert(node_views.contains(NodeView::Call(gli.chain(l), callees[j])));
                            assert(node_views.contains(NodeView::Call(gli.chain(l), d)));
                            assert(has_duplicate_call(node_views));
                        }
                        unreached::<()>();
                    }
                    let ghost gli_before = *gli;
                    let deps = get_dependencies(&self.graph, gli, nodes[k], body_id, arg_block);
                    proof {
                        self.graph.lemma_extends(gli, &gli_before);
                        lemma_chains_extends(gli, &gli_before, return_dependencies@);
                        gli.lemma_extends_chain(&gli_before, l);
                        lemma_entries_extend(
                            gli,
                            &gli_before,
                            flows,
                            nodes@,
                            entries@,
                            callees,
                            body_id,
                            arg_block,
                            k as int,
                        );
                        lemma_entries_push(
                            gli,
                            flows,
                            nodes@,
                            entries@,
                            callees,
                            body_id,
                            arg_block,
                            k as int,
                            l,
                            d,
                            deps,
                        );
                        callees = callees.push(d);
                    }
                    entries.push((l, deps));
                },
                _ => {
                    proof {
                        lemma_entries_skip(
                            gli,
                            flows,
                            nodes@,
                            entries@,
                            callees,
                            body_id,
                            arg_block,
                            k as int,
                        );
                    }
                },
            }
            k = k + 1;
        }
        let f = CallOnlyFlow { location_dependencies: entries, return_dependencies };
        proof {
            lemma_entries_view(&self.graph, gli, nodes@, &f, callees, body_id, arg_block);
        }
        f
    }
}

} // verus!
