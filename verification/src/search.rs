//! Which nodes of a directed graph can be reached from given nodes.

use crate::algebra::{lemma_unused_monotone, unused};
use vstd::prelude::*;

verus! {

/// Whether every successor that the lists name is a node: a number below
/// the number of lists.
pub open spec fn adjacency_wf(succ: Seq<Vec<usize>>) -> bool {
    forall|n: int, j: int|
        0 <= n < succ.len() && 0 <= j < succ[n].len() ==> (#[trigger] succ[n][j]) < succ.len()
}

/// Whether there is an edge from `a` to `b`.
pub open spec fn has_edge(succ: Seq<Vec<usize>>, a: int, b: int) -> bool {
    0 <= a < succ.len() && exists|j: int| 0 <= j < succ[a].len() && #[trigger] succ[a][j] == b
}

/// Whether the nodes form a path: there is at least one, and from each an
/// edge leads to the next.
pub open spec fn is_path(succ: Seq<Vec<usize>>, p: Seq<int>) -> bool {
    &&& p.len() >= 1
    &&& 0 <= p[0] < succ.len()
    &&& forall|i: int| 0 <= i < p.len() - 1 ==> has_edge(succ, #[trigger] p[i], p[i + 1])
}

/// Whether a path leads from `from` to `to`. Every node reaches itself.
pub open spec fn reaches(succ: Seq<Vec<usize>>, from: int, to: int) -> bool {
    exists|p: Seq<int>| is_path(succ, p) && p[0] == from && p.last() == to
}

/// Whether one of the given nodes reaches `to`.
pub open spec fn reached(succ: Seq<Vec<usize>>, starts: Seq<usize>, to: int) -> bool {
    exists|i: int| 0 <= i < starts.len() && reaches(succ, #[trigger] starts[i] as int, to)
}

/// What reaches a node reaches its successors.
pub proof fn lemma_reach_step(succ: Seq<Vec<usize>>, from: int, a: int, b: int)
    requires
        reaches(succ, from, a),
        has_edge(succ, a, b),
    ensures
        reaches(succ, from, b),
{
    let p = choose|p: Seq<int>| is_path(succ, p) && p[0] == from && p.last() == a;
    let q = p.push(b);
    assert forall|i: int| 0 <= i < q.len() - 1 implies has_edge(succ, #[trigger] q[i], q[i + 1]) by {
        if i < p.len() - 1 {
            assert(has_edge(succ, p[i], p[i + 1]));
            assert(q[i] == p[i] && q[i + 1] == p[i + 1]);
        }
    }
    assert(is_path(succ, q) && q[0] == from && q.last() == b);
}

/// Every node reaches itself.
pub proof fn lemma_reach_self(succ: Seq<Vec<usize>>, a: int)
    requires
        0 <= a < succ.len(),
    ensures
        reaches(succ, a, a),
{
    let p = seq![a];
    assert(is_path(succ, p) && p[0] == a && p.last() == a);
}

/// Whether the marked nodes have all their successors marked.
pub open spec fn closed(succ: Seq<Vec<usize>>, visited: Seq<bool>) -> bool {
    forall|n: int, j: int|
        0 <= n < succ.len() && visited[n] && 0 <= j < succ[n].len() ==> visited[
            (#[trigger] succ[n][j]) as int
        ]
}

/// A set of marked nodes that has all its successors holds whatever one of
/// its nodes reaches.
pub proof fn lemma_closed_holds_reached(succ: Seq<Vec<usize>>, visited: Seq<bool>, p: Seq<int>)
    requires
        adjacency_wf(succ),
        visited.len() == succ.len(),
        closed(succ, visited),
        is_path(succ, p),
        visited[p[0]],
    ensures
        0 <= p.last() < succ.len(),
        visited[p.last()],
    decreases p.len(),
{
    if p.len() > 1 {
        let q = p.drop_last();
        assert forall|i: int| 0 <= i < q.len() - 1 implies has_edge(succ, #[trigger] q[i], q[i + 1]) by {
            assert(has_edge(succ, p[i], p[i + 1]));
        }
        lemma_closed_holds_reached(succ, visited, q);
        let a = q.last();
        assert(has_edge(succ, p[p.len() - 2], p[p.len() - 2 + 1]));
        let j = choose|j: int| 0 <= j < succ[a].len() && #[trigger] succ[a][j] == p.last();
        assert(visited[succ[a][j] as int]);
    }
}

/// Marks the nodes that one of the given nodes reaches.
pub fn reachable(succ: &Vec<Vec<usize>>, starts: &Vec<usize>) -> (visited: Vec<bool>)
    requires
        adjacency_wf(succ@),
        forall|i: int| 0 <= i < starts.len() ==> starts[i] < succ.len(),
    ensures
        visited.len() == succ.len(),
        forall|n: int| 0 <= n < succ.len() ==> visited[n] == reached(succ@, starts@, n),
{
    let n = succ.len();
    let mut visited: Vec<bool> = Vec::new();
    while visited.len() < n
        invariant
            visited.len() <= n,
            forall|i: int| 0 <= i < visited.len() ==> !visited[i],
        decreases n - visited.len(),
    {
        visited.push(false);
    }
    let mut stack: Vec<usize> = Vec::new();
    let mut s: usize = 0;
    while s < starts.len()
        invariant
            s <= starts.len(),
            n == succ.len(),
            visited.len() == n,
            forall|i: int| 0 <= i < starts.len() ==> starts[i] < succ.len(),
            forall|i: int| 0 <= i < s ==> visited[starts[i] as int],
            forall|k: int| 0 <= k < stack.len() ==> stack[k] < n && visited[stack[k] as int],
            forall|m: int| 0 <= m < n && visited[m] ==> reached(succ@, starts@, m),
            forall|m: int| 0 <= m < n && visited[m] ==> stack@.contains(m as usize),
        decreases starts.len() - s,
    {
        let start = starts[s];
        if !visited[start] {
            let ghost before = stack@;
            visited.set(start, true);
            stack.push(start);
            proof {
                lemma_reach_self(succ@, start as int);
                assert forall|m: int| 0 <= m < n && visited[m] implies stack@.contains(
                    m as usize,
                ) by {
                    if m == start {
                        assert(stack@[before.len() as int] == start);
                    } else {
                        let k = choose|k: int| 0 <= k < before.len() && before[k] == m as usize;
                        assert(stack@[k] == m as usize);
                    }
                }
            }
        }
        s = s + 1;
    }
    loop
        invariant
            n == succ.len(),
            visited.len() == n,
            adjacency_wf(succ@),
            forall|i: int| 0 <= i < starts.len() ==> starts[i] < n && visited[starts[i] as int],
            forall|k: int| 0 <= k < stack.len() ==> stack[k] < n && visited[stack[k] as int],
            forall|m: int| 0 <= m < n && visited[m] ==> reached(succ@, starts@, m),
            forall|m: int, j: int|
                0 <= m < n && visited[m] && !stack@.contains(m as usize) && 0 <= j < succ[m].len()
                    ==> visited[(#[trigger] succ[m][j]) as int],
        decreases 2 * unused(visited@) + stack.len(),
    {
        let ghost visited_before = visited@;
        let ghost stack_before = stack@;
        let at = match stack.pop() {
            Some(a) => a,
            None => {
                proof {
                    assert forall|m: int| 0 <= m < n implies visited[m] == reached(
                        succ@,
                        starts@,
                        m,
                    ) by {
                        if reached(succ@, starts@, m) {
                            let i = choose|i: int|
                                0 <= i < starts.len() && reaches(
                                    succ@,
                                    #[trigger] starts[i] as int,
                                    m,
                                );
                            let p = choose|p: Seq<int>|
                                is_path(succ@, p) && p[0] == starts[i] as int && p.last() == m;
                            assert(closed(succ@, visited@)) by {
                                assert forall|a: int, j: int|
                                    0 <= a < succ.len() && visited@[a] && 0 <= j < succ@[a].len() implies visited@[(
                                #[trigger] succ@[a][j]) as int] by {
                                    assert(!stack@.contains(a as usize));
                                }
                            }
                            lemma_closed_holds_reached(succ@, visited@, p);
                        }
                    }
                }
                return visited;
            },
        };
        proof {
            assert(stack_before[stack_before.len() - 1] == at);
            assert(stack@ =~= stack_before.drop_last());
            assert forall|m: usize| m != at && stack_before.contains(m) implies stack@.contains(
                m,
            ) by {
                let k = choose|k: int| 0 <= k < stack_before.len() && stack_before[k] == m;
                assert(stack@[k] == m);
            }
        }
        let edges = &succ[at];
        let mut j: usize = 0;
        while j < edges.len()
            invariant
                j <= edges.len(),
                at < n,
                n == succ.len(),
                edges == &succ[at as int],
                visited.len() == n,
                adjacency_wf(succ@),
                visited[at as int],
                reached(succ@, starts@, at as int),
                forall|i: int| 0 <= i < starts.len() ==> starts[i] < n && visited[starts[i] as int],
                forall|k: int| 0 <= k < stack.len() ==> stack[k] < n && visited[stack[k] as int],
                forall|m: int| 0 <= m < n && visited[m] ==> reached(succ@, starts@, m),
                forall|m: int, x: int|
                    0 <= m < n && m != at && visited[m] && !stack@.contains(m as usize) && 0 <= x
                        < succ[m].len() ==> visited[(#[trigger] succ[m][x]) as int],
                forall|x: int| 0 <= x < j ==> visited[(#[trigger] edges[x]) as int],
                forall|i: int| 0 <= i < n ==> (visited_before[i] ==> visited[i]),
                visited_before.len() == n,
                2 * unused(visited@) + stack.len() < 2 * unused(visited_before)
                    + stack_before.len(),
            decreases edges.len() - j,
        {
            let next = edges[j];
            proof {
                assert(succ@[at as int][j as int] < succ.len());
            }
            if !visited[next] {
                let ghost visited_mid = visited@;
                let ghost stack_mid = stack@;
                visited.set(next, true);
                stack.push(next);
                proof {
                    lemma_unused_monotone(visited_mid, visited@);
                    assert(!visited_mid[next as int] && visited@[next as int]);
                    let i = choose|i: int|
                        0 <= i < starts.len() && reaches(
                            succ@,
                            #[trigger] starts[i] as int,
                            at as int,
                        );
                    assert(has_edge(succ@, at as int, next as int));
                    lemma_reach_step(succ@, starts[i] as int, at as int, next as int);
                    assert(reached(succ@, starts@, next as int));
                    assert forall|m: int, x: int|
                        0 <= m < n && m != at && visited[m] && !stack@.contains(m as usize) && 0
                            <= x < succ[m].len() implies visited[(#[trigger] succ[m][x]) as int] by {
                        assert(stack@[stack_mid.len() as int] == next);
                        if m != next {
                            if stack_mid.contains(m as usize) {
                                let k = choose|k: int|
                                    0 <= k < stack_mid.len() && stack_mid[k] == m as usize;
                                assert(stack@[k] == m as usize);
                            }
                            assert(visited_mid[m]);
                            assert(visited_mid[succ[m][x] as int]);
                        }
                    }
                    assert forall|k: int| 0 <= k < stack.len() implies stack[k] < n && visited[stack[k] as int] by {
                        if k < stack_mid.len() {
                            assert(stack@[k] == stack_mid[k]);
                        }
                    }
                }
            }
            j = j + 1;
        }
        proof {
            assert forall|m: int, x: int|
                0 <= m < n && visited[m] && !stack@.contains(m as usize) && 0 <= x < succ[m].len() implies visited[(
            #[trigger] succ[m][x]) as int] by {
                if m == at {
                    assert(visited[edges[x] as int]);
                }
            }
        }
    }
}

} // verus!
