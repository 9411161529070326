//! Selecting the edges that a traversal follows.

use crate::edge::{Edge, EdgeType};
use crate::graph::{FlowGraph, Node};
use crate::search::{adjacency_wf, has_edge, is_path, reachable, reached, reaches};
use vstd::prelude::*;

verus! {

/// The kind of a single dependency.
#[derive(Clone, Copy, PartialEq, Eq, Structural, Debug)]
pub enum EdgeKind {
    Data,
    Control,
}

/// Which kinds of dependency a traversal follows.
#[derive(Clone, Copy, PartialEq, Eq, Structural, Debug)]
pub enum EdgeSelection {
    Data,
    Control,
    Both,
}

impl EdgeSelection {
    /// Whether only dependencies of data are followed.
    pub fn is_data(self) -> (b: bool)
        ensures
            b == (self == EdgeSelection::Data),
    {
        matches!(self, EdgeSelection::Data)
    }

    /// Whether only dependencies of control are followed.
    pub fn is_control(self) -> (b: bool)
        ensures
            b == (self == EdgeSelection::Control),
    {
        matches!(self, EdgeSelection::Control)
    }

    /// Whether dependencies of both kinds are followed.
    pub fn is_both(self) -> (b: bool)
        ensures
            b == (self == EdgeSelection::Both),
    {
        matches!(self, EdgeSelection::Both)
    }

    /// Whether dependencies of control are followed.
    pub fn use_control(self) -> (b: bool)
        ensures
            b == (self != EdgeSelection::Data),
    {
        matches!(self, EdgeSelection::Control | EdgeSelection::Both)
    }

    /// Whether dependencies of data are followed.
    pub fn use_data(self) -> (b: bool)
        ensures
            b == (self != EdgeSelection::Control),
    {
        matches!(self, EdgeSelection::Data | EdgeSelection::Both)
    }

    /// Whether a dependency of the given kind is followed.
    pub open spec fn admits(self, kind: EdgeKind) -> bool {
        match kind {
            EdgeKind::Data => self != EdgeSelection::Control,
            EdgeKind::Control => self != EdgeSelection::Data,
        }
    }

    /// Whether a dependency of the given kind is followed.
    pub fn conforms(self, kind: EdgeKind) -> (b: bool)
        ensures
            b == self.admits(kind),
    {
        matches!(
            (self, kind),
            (EdgeSelection::Both, _) | (EdgeSelection::Data, EdgeKind::Data) | (
                EdgeSelection::Control,
                EdgeKind::Control,
            )
        )
    }
}

/// The kind of a dependency of the given type.
pub open spec fn kind_of(t: EdgeType) -> EdgeKind {
    match t {
        EdgeType::Data(_) => EdgeKind::Data,
        EdgeType::Control => EdgeKind::Control,
    }
}

/// Whether a traversal with the selection goes from `a` to `b` in one step:
/// `a` influences `b` in a way that the selection follows.
pub open spec fn follows(sel: EdgeSelection, g: &FlowGraph, a: Node, b: Node) -> bool {
    exists|t: EdgeType| g.has_flow(a, b, t) && sel.admits(kind_of(t))
}

/// Whether a traversal with the selection can visit the nodes one after the
/// other.
pub open spec fn is_flow_path(sel: EdgeSelection, g: &FlowGraph, p: Seq<Node>) -> bool {
    &&& p.len() >= 1
    &&& forall|i: int| 0 <= i < p.len() - 1 ==> follows(sel, g, #[trigger] p[i], p[i + 1])
}

/// Whether one of `from` reaches one of `to` over dependencies that the
/// selection follows. A node reaches itself, whether the graph holds it or
/// not.
pub open spec fn flows_to(
    sel: EdgeSelection,
    g: &FlowGraph,
    from: Seq<Node>,
    to: Seq<Node>,
) -> bool {
    exists|p: Seq<Node>|
        is_flow_path(sel, g, p) && from.contains(#[trigger] p[0]) && to.contains(p.last())
}

/// Where the node stands in the list.
fn position(list: &Vec<Node>, n: Node) -> (r: Option<usize>)
    ensures
        match r {
            Some(i) => i < list.len() && list[i as int] == n,
            None => !list@.contains(n),
        },
{
    let mut i: usize = 0;
    while i < list.len()
        invariant
            i <= list.len(),
            forall|k: int| 0 <= k < i ==> list[k] != n,
        decreases list.len() - i,
    {
        if list[i] == n {
            return Some(i);
        }
        i = i + 1;
    }
    None
}

impl EdgeSelection {
    /// Whether the selection follows an edge of the given weight.
    pub open spec fn selects(self, e: Edge) -> bool {
        exists|t: EdgeType| e.types().contains(t) && self.admits(kind_of(t))
    }

    /// Whether the selection follows an edge of the given weight.
    pub fn keeps(self, e: Edge) -> (b: bool)
        ensures
            b == self.selects(e),
    {
        let data = self.use_data() && e.is_data();
        let control = self.use_control() && e.is_control();
        proof {
            if data {
                let i = choose|i: u32| e.types().contains(EdgeType::Data(i));
                assert(e.types().contains(EdgeType::Data(i)) && self.admits(
                    kind_of(EdgeType::Data(i)),
                ));
            }
            if control {
                assert(e.types().contains(EdgeType::Control) && self.admits(
                    kind_of(EdgeType::Control),
                ));
            }
            if self.selects(e) {
                let t = choose|t: EdgeType| e.types().contains(t) && self.admits(kind_of(t));
                match t {
                    EdgeType::Data(i) => {
                        assert(e.types().contains(EdgeType::Data(i)));
                    },
                    EdgeType::Control => {},
                }
            }
        }
        data || control
    }

    /// The edges of the graph that the selection follows, as the list of
    /// successors of each node of `nodes`, a node being named by its place
    /// in `nodes`.
    pub fn filter_graph(self, g: &FlowGraph, nodes: &Vec<Node>) -> (succ: Vec<Vec<usize>>)
        requires
            g.wf(),
            nodes@.no_duplicates(),
            nodes@.to_set() == g.nodes(),
        ensures
            succ.len() == nodes.len(),
            adjacency_wf(succ@),
            forall|a: int, b: int|
                0 <= a < nodes.len() && 0 <= b < nodes.len() ==> has_edge(succ@, a, b) == follows(
                    self,
                    g,
                    nodes[a],
                    nodes[b],
                ),
    {
        let mut succ: Vec<Vec<usize>> = Vec::new();
        let mut i: usize = 0;
        while i < nodes.len()
            invariant
                i <= nodes.len(),
                succ.len() == i,
                g.wf(),
                nodes@.no_duplicates(),
                nodes@.to_set() == g.nodes(),
                forall|a: int, j: int|
                    0 <= a < i && 0 <= j < succ[a].len() ==> (#[trigger] succ[a][j])
                        < nodes.len(),
                forall|a: int, b: int|
                    0 <= a < i && 0 <= b < nodes.len() ==> (follows(self, g, nodes[a], nodes[b])
                        <==> exists|j: int| 0 <= j < succ[a].len() && #[trigger] succ[a][j] == b),
            decreases nodes.len() - i,
        {
            let n = nodes[i];
            let out = g.outgoing(n);
            let mut row: Vec<usize> = Vec::new();
            let mut k: usize = 0;
            while k < out.len()
                invariant
                    k <= out.len(),
                    g.wf(),
                    nodes@.no_duplicates(),
                    nodes@.to_set() == g.nodes(),
                    forall|x: int|
                        0 <= x < out.len() ==> g.has_edge(n, (#[trigger] out[x]).0)
                            && g.edges()[(n, out[x].0)] == out[x].1,
                    forall|j: int|
                        0 <= j < row.len() ==> (#[trigger] row[j]) < nodes.len() && follows(
                            self,
                            g,
                            n,
                            nodes[row[j] as int],
                        ),
                    forall|x: int|
                        0 <= x < k && self.selects((#[trigger] out[x]).1) ==> exists|j: int|
                            0 <= j < row.len() && nodes[(#[trigger] row[j]) as int] == out[x].0,
                decreases out.len() - k,
            {
                let target = out[k].0;
                if self.keeps(out[k].1) {
                    proof {
                        g.lemma_endpoints(n, target);
                        assert(nodes@.to_set().contains(target));
                    }
                    match position(nodes, target) {
                        Some(at) => {
                            let ghost before = row@;
                            row.push(at);
                            proof {
                                let t = choose|t: EdgeType|
                                    out[k as int].1.types().contains(t) && self.admits(kind_of(t));
                                assert(g.has_flow(n, target, t));
                                assert(row@[before.len() as int] == at);
                                assert forall|x: int|
                                    0 <= x < k + 1 && self.selects(
                                        (#[trigger] out[x]).1,
                                    ) implies exists|j: int|
                                    0 <= j < row.len() && nodes[(#[trigger] row[j]) as int]
                                        == out[x].0 by {
                                    if x < k {
                                        let j = choose|j: int|
                                            0 <= j < before.len() && nodes[(
                                            #[trigger] before[j]) as int] == out[x].0;
                                        assert(row@[j] == before[j]);
                                    }
                                }
                            }
                        },
                        None => {},
                    }
                }
                k = k + 1;
            }
            let ghost listed = row@;
            proof {
                assert forall|b: int| 0 <= b < nodes.len() implies (follows(self, g, n, nodes[b])
                    <==> exists|j: int| 0 <= j < listed.len() && #[trigger] listed[j] == b) by {
                    if follows(self, g, n, nodes[b]) {
                        let t = choose|t: EdgeType|
                            g.has_flow(n, nodes[b], t) && self.admits(kind_of(t));
                        assert(g.has_edge(n, nodes[b]));
                        let x = choose|x: int| 0 <= x < out.len() && (#[trigger] out[x]).0 == nodes[b];
                        assert(out[x].1.types().contains(t));
                        assert(self.selects(out[x].1));
                        let j = choose|j: int|
                            0 <= j < row.len() && nodes[(#[trigger] row[j]) as int] == out[x].0;
                        assert(row[j] == b);
                    }
                    if exists|j: int| 0 <= j < row.len() && #[trigger] row[j] == b {
                        let j = choose|j: int| 0 <= j < row.len() && #[trigger] row[j] == b;
                        assert(follows(self, g, n, nodes[row[j] as int]));
                    }
                }
            }
            let ghost before = succ@;
            succ.push(row);
            proof {
                assert forall|a: int, b: int|
                    0 <= a < i + 1 && 0 <= b < nodes.len() implies (follows(
                    self,
                    g,
                    nodes[a],
                    nodes[b],
                ) <==> exists|j: int| 0 <= j < succ[a].len() && #[trigger] succ[a][j] == b) by {
                    if a < i {
                        assert(succ[a] == before[a]);
                    } else {
                        assert(succ[a]@ == listed);
                        if exists|j: int| 0 <= j < listed.len() && #[trigger] listed[j] == b {
                            let j = choose|j: int| 0 <= j < listed.len() && #[trigger] listed[j] == b;
                            assert(succ[a][j] == b);
                        }
                        if exists|j: int| 0 <= j < succ[a].len() && #[trigger] succ[a][j] == b {
                            let j = choose|j: int| 0 <= j < succ[a].len() && #[trigger] succ[a][j] == b;
                            assert(listed[j] == b);
                        }
                    }
                }
            }
            i = i + 1;
        }
        succ
    }
}

/// The places in `nodes` of those of `list` that stand in `nodes`.
fn positions(nodes: &Vec<Node>, list: &Vec<Node>) -> (r: Vec<usize>)
    ensures
        forall|i: int| 0 <= i < r.len() ==> (#[trigger] r[i]) < nodes.len() && list@.contains(
            nodes[r[i] as int],
        ),
        forall|k: int, a: int|
            0 <= k < list.len() && 0 <= a < nodes.len() && #[trigger] list[k] == #[trigger] nodes[a]
                ==> exists|i: int| 0 <= i < r.len() && nodes[(#[trigger] r[i]) as int] == list[k],
{
    let mut r: Vec<usize> = Vec::new();
    let mut k: usize = 0;
    while k < list.len()
        invariant
            k <= list.len(),
            forall|i: int| 0 <= i < r.len() ==> (#[trigger] r[i]) < nodes.len() && list@.contains(
                nodes[r[i] as int],
            ),
            forall|x: int, a: int|
                0 <= x < k && 0 <= a < nodes.len() && #[trigger] list[x] == #[trigger] nodes[a]
                    ==> exists|i: int| 0 <= i < r.len() && nodes[(#[trigger] r[i]) as int] == list[x],
        decreases list.len() - k,
    {
        match position(nodes, list[k]) {
            Some(at) => {
                let ghost before = r@;
                r.push(at);
                proof {
                    assert(r@[before.len() as int] == at);
                    assert forall|x: int, a: int|
                        0 <= x < k + 1 && 0 <= a < nodes.len() && #[trigger] list[x]
                            == #[trigger] nodes[a] implies exists|i: int|
                        0 <= i < r.len() && nodes[(#[trigger] r[i]) as int] == list[x] by {
                        if x < k {
                            let i = choose|i: int|
                                0 <= i < before.len() && nodes[(#[trigger] before[i]) as int]
                                    == list[x];
                            assert(r@[i] == before[i]);
                        }
                    }
                }
            },
            None => {},
        }
        k = k + 1;
    }
    r
}

/// Every node of a path of two or more nodes is a node of the graph.
proof fn lemma_path_in_graph(sel: EdgeSelection, g: &FlowGraph, p: Seq<Node>, i: int)
    requires
        g.wf(),
        is_flow_path(sel, g, p),
        p.len() >= 2,
        0 <= i < p.len(),
    ensures
        g.nodes().contains(p[i]),
{
    if i < p.len() - 1 {
        assert(follows(sel, g, p[i], p[i + 1]));
        let t = choose|t: EdgeType| g.has_flow(p[i], p[i + 1], t) && sel.admits(kind_of(t));
        g.lemma_endpoints(p[i], p[i + 1]);
    } else {
        assert(follows(sel, g, p[i - 1], p[i - 1 + 1]));
        let t = choose|t: EdgeType| g.has_flow(p[i - 1], p[i], t) && sel.admits(kind_of(t));
        g.lemma_endpoints(p[i - 1], p[i]);
    }
}

/// Every place of a path of places is a place of a node.
proof fn lemma_path_in_range(succ: Seq<Vec<usize>>, p: Seq<int>, i: int)
    requires
        adjacency_wf(succ),
        is_path(succ, p),
        0 <= i < p.len(),
    ensures
        0 <= p[i] < succ.len(),
{
    if i > 0 {
        assert(has_edge(succ, p[i - 1], p[i - 1 + 1]));
    }
}

/// Whether one of `from` reaches one of `other` over dependencies that the
/// selection follows.
pub fn generic_flows_to(
    from: &Vec<Node>,
    edge_selection: EdgeSelection,
    g: &FlowGraph,
    other: &Vec<Node>,
) -> (r: bool)
    requires
        g.wf(),
    ensures
        r == flows_to(edge_selection, g, from@, other@),
{
    let mut i: usize = 0;
    while i < from.len()
        invariant
            i <= from.len(),
            forall|k: int| 0 <= k < i ==> !other@.contains(#[trigger] from[k]),
        decreases from.len() - i,
    {
        if position(other, from[i]).is_some() {
            proof {
                let p = seq![from[i as int]];
                assert(is_flow_path(edge_selection, g, p) && from@.contains(p[0])
                    && other@.contains(p.last()));
            }
            return true;
        }
        i = i + 1;
    }
    let nodes = g.node_list();
    let succ = edge_selection.filter_graph(g, &nodes);
    let starts = positions(&nodes, from);
    let visited = reachable(&succ, &starts);
    let mut k: usize = 0;
    while k < other.len()
        invariant
            k <= other.len(),
            g.wf(),
            nodes@.no_duplicates(),
            nodes@.to_set() == g.nodes(),
            succ.len() == nodes.len(),
            visited.len() == succ.len(),
            adjacency_wf(succ@),
            forall|a: int, b: int|
                0 <= a < nodes.len() && 0 <= b < nodes.len() ==> has_edge(succ@, a, b) == follows(
                    edge_selection,
                    g,
                    nodes[a],
                    nodes[b],
                ),
            forall|x: int|
                0 <= x < starts.len() ==> (#[trigger] starts[x]) < nodes.len() && from@.contains(
                    nodes[starts[x] as int],
                ),
            forall|n: int| 0 <= n < succ.len() ==> visited[n] == reached(succ@, starts@, n),
            forall|x: int, a: int|
                0 <= x < k && 0 <= a < nodes.len() && #[trigger] other[x] == #[trigger] nodes[a]
                    ==> !visited[a],
        decreases other.len() - k,
    {
        match position(&nodes, other[k]) {
            Some(at) => {
                if visited[at] {
                    proof {
                        let s = choose|s: int|
                            0 <= s < starts.len() && reaches(
                                succ@,
                                #[trigger] starts[s] as int,
                                at as int,
                            );
                        let p = choose|p: Seq<int>|
                            is_path(succ@, p) && p[0] == starts[s] as int && p.last() == at as int;
                        let q = Seq::new(p.len(), |x: int| nodes[p[x]]);
                        assert forall|x: int| 0 <= x < q.len() - 1 implies follows(
                            edge_selection,
                            g,
                            #[trigger] q[x],
                            q[x + 1],
                        ) by {
                            lemma_path_in_range(succ@, p, x);
                            lemma_path_in_range(succ@, p, x + 1);
                            assert(has_edge(succ@, p[x], p[x + 1]));
                        }
                        assert(is_flow_path(edge_selection, g, q) && from@.contains(q[0])
                            && other@.contains(q.last()));
                    }
                    return true;
                }
                proof {
                    assert forall|x: int, a: int|
                        0 <= x < k + 1 && 0 <= a < nodes.len() && #[trigger] other[x]
                            == #[trigger] nodes[a] implies !visited[a] by {
                        if x == k {
                            assert(a == at);
                        }
                    }
                }
            },
            None => {},
        }
        k = k + 1;
    }
    proof {
        if flows_to(edge_selection, g, from@, other@) {
            let q = choose|q: Seq<Node>|
                is_flow_path(edge_selection, g, q) && from@.contains(#[trigger] q[0])
                    && other@.contains(q.last());
            if q.len() == 1 {
                let x = choose|x: int| 0 <= x < from.len() && from[x] == q[0];
                assert(!other@.contains(from[x]));
            } else {
                assert forall|x: int| 0 <= x < q.len() implies nodes@.contains(#[trigger] q[x]) by {
                    lemma_path_in_graph(edge_selection, g, q, x);
                    assert(nodes@.to_set().contains(q[x]));
                }
                let p = Seq::new(
                    q.len(),
                    |x: int| choose|a: int| 0 <= a < nodes.len() && nodes[a] == q[x],
                );
                assert forall|x: int| 0 <= x < p.len() implies 0 <= #[trigger] p[x] < nodes.len()
                    && nodes[p[x]] == q[x] by {
                    assert(nodes@.contains(q[x]));
                }
                assert forall|x: int| 0 <= x < p.len() - 1 implies has_edge(
                    succ@,
                    #[trigger] p[x],
                    p[x + 1],
                ) by {
                    assert(follows(edge_selection, g, q[x], q[x + 1]));
                    assert(0 <= p[x + 1] < nodes.len() && nodes[p[x + 1]] == q[x + 1]);
                }
                assert(is_path(succ@, p));
                let f = choose|f: int| 0 <= f < from.len() && from[f] == q[0];
                assert(from[f] == nodes[p[0]]);
                let s = choose|s: int|
                    0 <= s < starts.len() && nodes[(#[trigger] starts[s]) as int] == from[f];
                assert(starts[s] as int == p[0]);
                assert(reaches(succ@, starts[s] as int, p.last()));
                lemma_path_in_range(succ@, p, p.len() - 1);
                assert(reached(succ@, starts@, p.last()));
                assert(visited[p.last()]);
                let o = choose|o: int| 0 <= o < other.len() && other[o] == q.last();
                assert(other[o] == nodes[p.last()]);
            }
        }
    }
    false
}

} // verus!
