//! The route finder: breadth-first search for an edge path from an origin
//! to any of several goals, never entering an avoided node and never
//! crossing an edge on which an avoided property is guaranteed (an edge
//! where the property merely might hold is still traversable).

use vstd::prelude::*;

use crate::callgraph::Callgraph;
use crate::callgraph::EdgeModel;
use crate::pgraph::edge_ids_from;
use crate::pgraph::lemma_edge_ids_from;
use crate::pgraph::pg_edges_from;
use vstd::pervasive::VecAdditionalExecFns;

verus! {

/// An edge may be crossed: its target is not avoided and no avoided
/// property is guaranteed on every call it represents.
pub open spec fn edge_ok(e: EdgeModel, avoid: Seq<usize>, props: u32) -> bool {
    !avoid.contains(e.1) && e.2.all & props == 0
}

/// `path` is a route from `origin` to some member of `goal`: consecutive
/// edges, every edge traversable, starting at the origin and ending in a
/// goal. The empty path is a route exactly when the origin itself is a
/// goal.
pub open spec fn path_ok(
    edges: Seq<EdgeModel>,
    path: Seq<usize>,
    origin: usize,
    goal: Seq<usize>,
    avoid: Seq<usize>,
    props: u32,
) -> bool {
    &&& forall|i: int|
        0 <= i < path.len() ==> (#[trigger] path[i]) < edges.len() && edge_ok(
            edges[path[i] as int],
            avoid,
            props,
        )
    &&& path.len() > 0 ==> edges[path[0] as int].0 == origin
    &&& forall|i: int|
        0 <= i < path.len() - 1 ==> edges[#[trigger] path[i] as int].1 == edges[path[i
            + 1] as int].0
    &&& if path.len() == 0 {
        goal.contains(origin)
    } else {
        goal.contains(edges[path.last() as int].1)
    }
}

/// What held the moment the search edge `fe` reached a goal: the goal's
/// distance is one past its source's, every visited node strictly closer
/// than the source has all its traversable successors visited one layer
/// at most further out, and no visited node other than the reached goal
/// is a goal.
pub open spec fn found_frozen(
    edges: Seq<EdgeModel>,
    visited: Seq<bool>,
    dist: Seq<usize>,
    goal: Seq<usize>,
    avoid: Seq<usize>,
    props: u32,
    n: usize,
    fe: usize,
) -> bool {
    &&& dist[edges[fe as int].1 as int] == dist[edges[fe as int].0 as int] + 1
    &&& forall|v: int, e: int|
        #![trigger visited[v], edges[e]]
        0 <= v < n && visited[v] && dist[v] < dist[edges[fe as int].0 as int] && 0 <= e
            < edges.len() && edges[e].0 == v && edge_ok(edges[e], avoid, props) ==> visited[edges[e].1 as int]
            && dist[edges[e].1 as int] <= dist[v] + 1
    &&& forall|v: int|
        0 <= v < n && #[trigger] visited[v] && v != edges[fe as int].1 ==> !goal.contains(
            v as usize,
        )
}

/// When the search edge reaches a goal, the frozen facts hold: the
/// closer nodes were fully processed before the pass and nothing of this
/// pass reached below the scanned layer.
proof fn lemma_found_frozen_step(
    edges: Seq<EdgeModel>,
    old_vis: Seq<bool>,
    visited: Seq<bool>,
    dist: Seq<usize>,
    goal: Seq<usize>,
    avoid: Seq<usize>,
    props: u32,
    n: usize,
    old_q: Seq<usize>,
    old_head: int,
    queue: Seq<usize>,
    head: int,
    src: usize,
    dd: usize,
    dst: usize,
    fe: usize,
)
    requires
        visited.len() == n,
        old_vis.len() == n,
        dist.len() == n,
        forall|i: int|
            0 <= i < edges.len() ==> (#[trigger] edges[i]).0 < n && edges[i].1 < n,
        0 <= old_head < old_q.len(),
        head == old_head + 1,
        head <= old_q.len() <= queue.len(),
        queue.subrange(0, old_q.len() as int) == old_q,
        old_q[old_head] == src,
        src < n,
        dst < n,
        dist[src as int] == dd,
        dist[dst as int] == dd + 1,
        forall|i: int| head <= i < queue.len() ==> dd <= dist[#[trigger] queue[i] as int],
        forall|v: int| 0 <= v < n && old_vis[v] ==> #[trigger] visited[v],
        visited[dst as int],
        forall|v: int|
            0 <= v < n && #[trigger] visited[v] && !old_vis[v] && v != dst ==> queue.subrange(
                old_q.len() as int,
                queue.len() as int,
            ).contains(v as usize),
        forall|v: int, e: int|
            #![trigger old_vis[v], edges[e]]
            0 <= v < n && old_vis[v] && !old_q.subrange(
                old_head,
                old_q.len() as int,
            ).contains(v as usize) && 0 <= e < edges.len() && edges[e].0 == v && edge_ok(
                edges[e],
                avoid,
                props,
            ) ==> old_vis[edges[e].1 as int] && dist[edges[e].1 as int] <= dist[v] + 1,
        forall|v: int|
            0 <= v < n && #[trigger] visited[v] && v != dst ==> !goal.contains(v as usize),
        fe < edges.len(),
        edges[fe as int].0 == src,
        edges[fe as int].1 == dst,
    ensures
        found_frozen(edges, visited, dist, goal, avoid, props, n, fe),
{
    assert forall|v: int, e: int|
        #![trigger visited[v], edges[e]]
        0 <= v < n && visited[v] && dist[v] < dd && 0 <= e < edges.len() && edges[e].0 == v
            && edge_ok(edges[e], avoid, props) implies visited[edges[e].1 as int] && dist[edges[
        e].1 as int] <= dist[v] + 1 by {
        assert(v != dst as int);
        assert(old_vis[v]) by {
            if !old_vis[v] {
                let app = queue.subrange(old_q.len() as int, queue.len() as int);
                assert(app.contains(v as usize));
                let t = choose|t: int| 0 <= t < app.len() && app[t] == v as usize;
                assert(queue[old_q.len() + t] == v as usize);
                assert(dd <= dist[v]);
            }
        }
        assert(!old_q.subrange(old_head, old_q.len() as int).contains(v as usize)) by {
            if old_q.subrange(old_head, old_q.len() as int).contains(v as usize) {
                let win_old = old_q.subrange(old_head, old_q.len() as int);
                let t = choose|t: int| 0 <= t < win_old.len() && win_old[t] == v as usize;
                if t == 0 {
                    assert(win_old[0] == old_q[old_head]);
                    assert(v == src);
                } else {
                    assert(old_q[old_head + t] == v as usize);
                    assert(queue[old_head + t] == v as usize);
                    assert(dd <= dist[v]);
                }
            }
        }
        assert(old_vis[edges[e].1 as int]);
        assert(visited[edges[e].1 as int]);
        assert(dist[edges[e].1 as int] <= dist[v] + 1);
    }
}

/// How many entries of `s` are true.
pub(crate) closed spec fn count_trues(s: Seq<bool>) -> nat
    decreases s.len(),
{
    if s.len() == 0 {
        0
    } else {
        count_trues(s.drop_last()) + if s.last() {
            1nat
        } else {
            0nat
        }
    }
}

pub(crate) proof fn lemma_count_le(s: Seq<bool>)
    ensures
        count_trues(s) <= s.len(),
    decreases s.len(),
{
    if s.len() > 0 {
        lemma_count_le(s.drop_last());
    }
}

pub(crate) proof fn lemma_count_update(s: Seq<bool>, i: int)
    requires
        0 <= i < s.len(),
        !s[i],
    ensures
        count_trues(s.update(i, true)) == count_trues(s) + 1,
    decreases s.len(),
{
    let t = s.update(i, true);
    if i == s.len() - 1 {
        assert(t.drop_last() =~= s.drop_last());
    } else {
        assert(t.drop_last() =~= s.drop_last().update(i, true));
        lemma_count_update(s.drop_last(), i);
    }
}

/// A sequence with one entry known false has at most all others true.
pub(crate) proof fn lemma_count_le_without(s: Seq<bool>, i: int)
    requires
        0 <= i < s.len(),
        !s[i],
    ensures
        count_trues(s) <= s.len() - 1,
    decreases s.len(),
{
    if i == s.len() - 1 {
        lemma_count_le(s.drop_last());
    } else {
        lemma_count_le_without(s.drop_last(), i);
    }
}

/// A sequence of falses holds no trues.
pub(crate) proof fn lemma_count_zeros(n: nat)
    ensures
        count_trues(Seq::new(n, |i: int| false)) == 0,
    decreases n,
{
    if n > 0 {
        assert(Seq::new(n, |i: int| false).drop_last() =~= Seq::new(
            (n - 1) as nat,
            |i: int| false,
        ));
        lemma_count_zeros((n - 1) as nat);
    }
}

/// Whether `x` occurs in `v`.
pub(crate) fn vec_contains(v: &Vec<usize>, x: usize) -> (b: bool)
    ensures
        b == v@.contains(x),
{
    let n = v.len();
    let mut i: usize = 0;
    while i < n
        invariant
            n == v@.len(),
            i <= n,
            forall|j: int| 0 <= j < i ==> v@[j] != x,
        decreases n - i,
    {
        if v[i] == x {
            return true;
        }
        i += 1;
    }
    false
}

/// When every visited node has all its traversable successors visited
/// and the origin is visited, a chain of traversable edges starting at
/// the origin ends in a visited node.
proof fn lemma_route_stays_visited(
    edges: Seq<EdgeModel>,
    visited: Seq<bool>,
    origin: usize,
    avoid: Seq<usize>,
    props: u32,
    path: Seq<usize>,
)
    requires
        forall|i: int|
            0 <= i < edges.len() ==> (#[trigger] edges[i]).0 < visited.len() && edges[i].1
                < visited.len(),
        forall|v: int, e: int|
            #![trigger visited[v], edges[e]]
            0 <= v < visited.len() && visited[v] && 0 <= e < edges.len() && edges[e].0 == v
                && edge_ok(edges[e], avoid, props) ==> visited[edges[e].1 as int],
        origin < visited.len(),
        visited[origin as int],
        forall|i: int|
            0 <= i < path.len() ==> (#[trigger] path[i]) < edges.len() && edge_ok(
                edges[path[i] as int],
                avoid,
                props,
            ),
        path.len() > 0 ==> edges[path[0] as int].0 == origin,
        forall|i: int|
            0 <= i < path.len() - 1 ==> edges[#[trigger] path[i] as int].1 == edges[path[i
                + 1] as int].0,
    ensures
        path.len() > 0 ==> visited[edges[path.last() as int].1 as int],
    decreases path.len(),
{
    if path.len() > 0 {
        let e0 = path[0] as int;
        assert(edges[e0].0 == origin);
        let next = edges[e0].1;
        assert(visited[next as int]);
        let rest = path.drop_first();
        assert(forall|i: int| 0 <= i < rest.len() ==> rest[i] == #[trigger] path[i + 1]);
        if rest.len() == 0 {
            assert(path.last() == path[0]);
        } else {
            assert(forall|i: int|
                0 <= i < rest.len() - 1 ==> edges[#[trigger] rest[i] as int].1 == edges[rest[i
                    + 1] as int].0) by {
                assert(forall|i: int|
                    0 <= i < rest.len() - 1 ==> #[trigger] rest[i] == path[i + 1] && rest[i + 1]
                        == path[i + 2]);
            }
            assert(rest[0] == path[1]);
            assert(edges[path[0] as int].1 == edges[path[1] as int].0);
            lemma_route_stays_visited(edges, visited, next, avoid, props, rest);
            assert(rest.last() == path.last());
        }
    }
}

/// Under the frozen closure — every visited node strictly below layer
/// `dd` has all its traversable successors visited one layer at most
/// further out — a traversable chain from the origin of length at most
/// `dd` ends visited, no deeper than its own length.
proof fn lemma_short_paths_visited(
    edges: Seq<EdgeModel>,
    visited: Seq<bool>,
    dist: Seq<usize>,
    origin: usize,
    avoid: Seq<usize>,
    props: u32,
    dd: int,
    p: Seq<usize>,
)
    requires
        dist.len() == visited.len(),
        forall|i: int|
            0 <= i < edges.len() ==> (#[trigger] edges[i]).0 < visited.len() && edges[i].1
                < visited.len(),
        origin < visited.len(),
        visited[origin as int],
        dist[origin as int] == 0,
        forall|v: int, e: int|
            #![trigger visited[v], edges[e]]
            0 <= v < visited.len() && visited[v] && dist[v] < dd && 0 <= e < edges.len()
                && edges[e].0 == v && edge_ok(edges[e], avoid, props) ==> visited[edges[e].1 as int]
                && dist[edges[e].1 as int] <= dist[v] + 1,
        forall|i: int|
            0 <= i < p.len() ==> (#[trigger] p[i]) < edges.len() && edge_ok(
                edges[p[i] as int],
                avoid,
                props,
            ),
        p.len() > 0 ==> edges[p[0] as int].0 == origin,
        forall|i: int|
            0 <= i < p.len() - 1 ==> edges[#[trigger] p[i] as int].1 == edges[p[i
                + 1] as int].0,
        p.len() <= dd,
    ensures
        p.len() > 0 ==> visited[edges[p.last() as int].1 as int] && dist[edges[
            p.last() as int].1 as int] <= p.len(),
    decreases p.len(),
{
    if p.len() > 0 {
        let pre = p.drop_last();
        assert(forall|i: int| 0 <= i < pre.len() ==> pre[i] == #[trigger] p[i]);
        lemma_short_paths_visited(edges, visited, dist, origin, avoid, props, dd, pre);
        let u: int = if pre.len() == 0 {
            origin as int
        } else {
            edges[pre.last() as int].1 as int
        };
        assert(visited[u] && dist[u] <= p.len() - 1);
        assert(edges[p.last() as int].0 == u) by {
            if pre.len() == 0 {
                assert(p.last() == p[0]);
            } else {
                assert(pre.last() == p[p.len() - 2]);
                assert(edges[p[p.len() - 2] as int].1 == edges[p[p.len() - 1] as int].0);
            }
        }
        assert(dist[u] < dd);
        assert(visited[edges[p.last() as int].1 as int] && dist[edges[p.last() as int].1 as int]
            <= dist[u] + 1);
    }
}

impl Callgraph {
    /// The search state is sound: parallel tables sized to the graph, the
    /// queue holds distinct visited nodes, every visited node but the
    /// origin records the traversable edge that first reached it, and
    /// distances stay below the number of visited nodes.
    spec fn bfs_inv(
        self,
        n: usize,
        origin: usize,
        avoid: Seq<usize>,
        props: u32,
        visited: Seq<bool>,
        pred: Seq<usize>,
        dist: Seq<usize>,
        queue: Seq<usize>,
    ) -> bool {
        &&& n == self.funcs().len()
        &&& origin < n
        &&& visited.len() == n
        &&& pred.len() == n
        &&& dist.len() == n
        &&& visited[origin as int]
        &&& dist[origin as int] == 0
        &&& queue.len() <= count_trues(visited)
        &&& count_trues(visited) <= n
        &&& forall|i: int|
            0 <= i < queue.len() ==> (#[trigger] queue[i]) < n && visited[queue[i] as int]
        &&& forall|i: int, j: int| 0 <= i < j < queue.len() ==> queue[i] != queue[j]
        &&& forall|v: int|
            0 <= v < n && visited[v] && v != origin ==> (#[trigger] pred[v]) < self.edges().len()
                && self.edges()[pred[v] as int].1 == v && edge_ok(
                self.edges()[pred[v] as int],
                avoid,
                props,
            ) && visited[self.edges()[pred[v] as int].0 as int] && dist[self.edges()[pred[v] as int].0 as int]
                < dist[v]
        &&& forall|v: int|
            0 <= v < n && visited[v] ==> (#[trigger] dist[v]) + 1 <= count_trues(visited)
    }

    /// A shortest route by edge count from `origin` to any member of
    /// `goal`, avoiding the given nodes and guaranteed properties.
    /// Succeeds exactly when a route exists; an origin that is itself a
    /// goal gets the empty route.
    #[verifier::rlimit(100)]
    pub fn any_route(
        &self,
        origin: usize,
        goal: &Vec<usize>,
        avoid: &Vec<usize>,
        avoid_props: u32,
    ) -> (r: Option<Vec<usize>>)
        requires
            self.wf(),
        ensures
            goal@.contains(origin) ==> (r matches Some(v) && v@ == Seq::<usize>::empty()),
            match r {
                Some(v) => path_ok(self.edges(), v@, origin, goal@, avoid@, avoid_props)
                    && forall|p: Seq<usize>|
                    #![trigger path_ok(self.edges(), p, origin, goal@, avoid@, avoid_props)]
                    path_ok(self.edges(), p, origin, goal@, avoid@, avoid_props) ==> p.len()
                        >= v@.len(),
                None => forall|p: Seq<usize>|
                    !path_ok(self.edges(), p, origin, goal@, avoid@, avoid_props),
            },
    {
        proof {
            self.lemma_wf_facts();
        }
        if vec_contains(goal, origin) {
            let empty: Vec<usize> = Vec::new();
            return Some(empty);
        }
        let n = self.node_count();
        if origin >= n {
            proof {
                assert forall|p: Seq<usize>|
                    !path_ok(self.edges(), p, origin, goal@, avoid@, avoid_props) by {
                    if path_ok(self.edges(), p, origin, goal@, avoid@, avoid_props) {
                        if p.len() == 0 {
                            assert(goal@.contains(origin));
                        } else {
                            assert(p[0] < self.edges().len());
                            assert(self.edges()[p[0] as int].0 == origin);
                        }
                    }
                }
            }
            return None;
        }
        let mut visited: Vec<bool> = vec![false; n];
        let mut pred: Vec<usize> = vec![0; n];
        let mut dist: Vec<usize> = vec![0; n];
        let mut queue: Vec<usize> = Vec::new();
        visited.set(origin, true);
        proof {
            let zeros = Seq::new(n as nat, |i: int| false);
            lemma_count_zeros(n as nat);
            assert(visited@ =~= zeros.update(origin as int, true));
            lemma_count_update(zeros, origin as int);
        }
        queue.push(origin);
        proof {
            assert(queue@ =~= seq![origin]);
            assert(queue@.subrange(0, 1) =~= seq![origin]);
            assert(queue@.subrange(0, 1)[0] == origin);
        }
        let mut head: usize = 0;
        let mut found: Option<usize> = None;
        while head < queue.len() && found.is_none()
            invariant
                self.wf(),
                self.bfs_inv(n, origin, avoid@, avoid_props, visited@, pred@, dist@, queue@),
                head <= queue@.len(),
                !goal@.contains(origin),
                // processed nodes have every traversable successor
                // visited, one layer at most below it
                found is None ==> forall|v: int, e: int|
                    #![trigger visited@[v], self.edges()[e]]
                    0 <= v < n && visited@[v] && !queue@.subrange(
                        head as int,
                        queue@.len() as int,
                    ).contains(v as usize) && 0 <= e < self.edges().len() && self.edges()[e].0 == v
                        && edge_ok(self.edges()[e], avoid@, avoid_props) ==> visited@[self.edges()[e].1 as int]
                        && dist@[self.edges()[e].1 as int] <= dist@[v] + 1,
                // the waiting nodes span at most two distance layers, in order
                forall|i: int, j: int|
                    head <= i <= j < queue@.len() ==> dist@[#[trigger] queue@[i] as int] <= dist@[
                        #[trigger] queue@[j] as int],
                head < queue@.len() ==> forall|v: int|
                    0 <= v < n && #[trigger] visited@[v] ==> dist@[v] <= dist@[queue@[
                        head as int] as int] + 1,
                found is None && head < queue@.len() ==> forall|v: int|
                    0 <= v < n && #[trigger] visited@[v] && !queue@.subrange(
                        head as int,
                        queue@.len() as int,
                    ).contains(v as usize) ==> dist@[v] <= dist@[queue@[head as int] as int],
                // no visited node is a goal while the search goes on
                found is None ==> forall|v: int|
                    0 <= v < n && #[trigger] visited@[v] ==> !goal@.contains(v as usize),
                // the found edge reaches a goal along traversable edges,
                // and when it was found every strictly closer node was
                // already closed and no other visited node was a goal
                match found {
                    Some(fe) => fe < self.edges().len() && edge_ok(
                        self.edges()[fe as int],
                        avoid@,
                        avoid_props,
                    ) && goal@.contains(self.edges()[fe as int].1) && visited@[self.edges()[
                        fe as int].0 as int] && found_frozen(
                        self.edges(),
                        visited@,
                        dist@,
                        goal@,
                        avoid@,
                        avoid_props,
                        n,
                        fe,
                    ),
                    None => true,
                },
            decreases n - head,
        {
            proof {
                self.lemma_wf_facts();
            }
            let ghost old_q = queue@;
            let ghost old_vis = visited@;
            let ghost old_head = head as int;
            let src = queue[head];
            head += 1;
            let ghost dd = dist@[src as int];
            proof {
                // The popped node headed the window: everything waiting
                // sits within one layer of it, everything done at or
                // below it.
                assert(old_q.subrange(old_head, old_q.len() as int) =~= seq![src]
                    + old_q.subrange(old_head + 1, old_q.len() as int));
                assert forall|v: int|
                    0 <= v < n && #[trigger] visited@[v] && !queue@.subrange(
                        head as int,
                        queue@.len() as int,
                    ).contains(v as usize) && v != src implies dist@[v] <= dd by {
                    let win_old = old_q.subrange(old_head, old_q.len() as int);
                    if win_old.contains(v as usize) {
                        let t = choose|t: int| 0 <= t < win_old.len() && win_old[t] == v as usize;
                        assert(t != 0);
                        assert(queue@.subrange(head as int, queue@.len() as int)[t - 1]
                            == v as usize);
                    }
                }
            }
            let ids = pg_edges_from(self.graph_ref(), src);
            proof {
                lemma_edge_ids_from(self.edges(), src);
            }
            let m = ids.len();
            let mut k: usize = 0;
            while k < m && found.is_none()
                invariant
                    self.wf(),
                    self.bfs_inv(n, origin, avoid@, avoid_props, visited@, pred@, dist@, queue@),
                    !goal@.contains(origin),
                    src < n,
                    visited@[src as int],
                    m == ids@.len(),
                    k <= m,
                    ids@ == edge_ids_from(self.edges(), src),
                    forall|t: int|
                        0 <= t < ids@.len() ==> (#[trigger] ids@[t]) < self.edges().len()
                            && self.edges()[ids@[t] as int].0 == src,
                    forall|e: int|
                        0 <= e < self.edges().len() && (#[trigger] self.edges()[e]).0 == src
                            ==> ids@.contains(e as usize),
                    // queue only grows and keeps its prefix
                    0 <= old_head,
                    old_head + 1 == head,
                    head <= old_q.len() <= queue@.len(),
                    queue@.subrange(0, old_q.len() as int) == old_q,
                    old_q[old_head] == src,
                    // visits only grow
                    old_vis.len() == n,
                    forall|v: int| 0 <= v < n && old_vis[v] ==> #[trigger] visited@[v],
                    // while nothing is found, every fresh visit was queued
                    found is None ==> forall|v: int|
                        0 <= v < n && #[trigger] visited@[v] && !old_vis[v] ==> queue@.subrange(
                            old_q.len() as int,
                            queue@.len() as int,
                        ).contains(v as usize),
                    // nodes processed before this pass were closed already
                    forall|v: int, e: int|
                        #![trigger old_vis[v], self.edges()[e]]
                        0 <= v < n && old_vis[v] && !old_q.subrange(
                            old_head,
                            old_q.len() as int,
                        ).contains(v as usize) && 0 <= e < self.edges().len() && self.edges()[e].0
                            == v && edge_ok(self.edges()[e], avoid@, avoid_props) ==> old_vis[self.edges()[e].1 as int]
                            && dist@[self.edges()[e].1 as int] <= dist@[v] + 1,
                    // partial closure for src over the edges scanned so far
                    found is None ==> forall|t: int|
                        0 <= t < k && edge_ok(
                            self.edges()[#[trigger] ids@[t] as int],
                            avoid@,
                            avoid_props,
                        ) ==> visited@[self.edges()[ids@[t] as int].1 as int] && dist@[self.edges()[
                            ids@[t] as int].1 as int] <= dd + 1,
                    // the scanned node sits on layer `dd`; the window and
                    // every visited node stay within one layer of it
                    dist@[src as int] == dd,
                    forall|i: int|
                        head <= i < queue@.len() ==> dd <= dist@[#[trigger] queue@[i] as int]
                            <= dd + 1,
                    forall|i: int, j: int|
                        head <= i <= j < queue@.len() ==> dist@[#[trigger] queue@[i] as int]
                            <= dist@[#[trigger] queue@[j] as int],
                    forall|v: int|
                        0 <= v < n && #[trigger] visited@[v] ==> dist@[v] <= dd + 1,
                    found is None ==> forall|v: int|
                        0 <= v < n && #[trigger] visited@[v] && !queue@.subrange(
                            head as int,
                            queue@.len() as int,
                        ).contains(v as usize) && v != src ==> dist@[v] <= dd,
                    found is None ==> forall|v: int|
                        0 <= v < n && #[trigger] visited@[v] ==> !goal@.contains(v as usize),
                    match found {
                        Some(fe) => fe < self.edges().len() && edge_ok(
                            self.edges()[fe as int],
                            avoid@,
                            avoid_props,
                        ) && goal@.contains(self.edges()[fe as int].1) && visited@[self.edges()[
                            fe as int].0 as int] && found_frozen(
                            self.edges(),
                            visited@,
                            dist@,
                            goal@,
                            avoid@,
                            avoid_props,
                            n,
                            fe,
                        ),
                        None => true,
                    },
                decreases m - k,
            {
                proof {
                    self.lemma_wf_facts();
                }
                let e = ids[k];
                let (_, dst) = self.edge_endpoints(e);
                let ps = self.edge_props(e);
                if !visited[dst] && !vec_contains(avoid, dst) && (ps.all & avoid_props) == 0 {
                    proof {
                        lemma_count_update(visited@, dst as int);
                        lemma_count_le(visited@.update(dst as int, true));
                        assert(forall|i: int|
                            0 <= i < queue@.len() ==> #[trigger] queue@[i] != dst);
                    }
                    visited.set(dst, true);
                    pred.set(dst, e);
                    let d = dist[src];
                    dist.set(dst, d + 1);
                    if vec_contains(goal, dst) {
                        found = Some(e);
                        proof {
                            lemma_found_frozen_step(
                                self.edges(),
                                old_vis,
                                visited@,
                                dist@,
                                goal@,
                                avoid@,
                                avoid_props,
                                n,
                                old_q,
                                old_head,
                                queue@,
                                head as int,
                                src,
                                dd,
                                dst,
                                e,
                            );
                        }
                    } else {
                        let ghost q_before = queue@;
                        queue.push(dst);
                        proof {
                            assert(queue@.last() == dst);
                            assert(queue@.subrange(head as int, queue@.len() as int)[queue@.len()
                                - 1 - head] == dst);
                            assert forall|v: int|
                                0 <= v < n && #[trigger] visited@[v] && !queue@.subrange(
                                    head as int,
                                    queue@.len() as int,
                                ).contains(v as usize) && v != src implies dist@[v] <= dd by {
                                assert(v != dst as int);
                                assert(!q_before.subrange(
                                    head as int,
                                    q_before.len() as int,
                                ).contains(v as usize)) by {
                                    if q_before.subrange(
                                        head as int,
                                        q_before.len() as int,
                                    ).contains(v as usize) {
                                        let t = choose|t: int|
                                            0 <= t < q_before.len() - head && q_before.subrange(
                                                head as int,
                                                q_before.len() as int,
                                            )[t] == v as usize;
                                        assert(queue@.subrange(
                                            head as int,
                                            queue@.len() as int,
                                        )[t] == v as usize);
                                    }
                                }
                            }
                            assert forall|v: int|
                                0 <= v < n && #[trigger] visited@[v] && !old_vis[v]
                                    implies queue@.subrange(
                                    old_q.len() as int,
                                    queue@.len() as int,
                                ).contains(v as usize) by {
                                let win = queue@.subrange(old_q.len() as int, queue@.len() as int);
                                if v == dst {
                                    assert(win[win.len() - 1] == dst);
                                } else {
                                    let prev = q_before.subrange(
                                        old_q.len() as int,
                                        q_before.len() as int,
                                    );
                                    assert(prev.contains(v as usize));
                                    let t = choose|t: int|
                                        0 <= t < prev.len() && prev[t] == v as usize;
                                    assert(win[t] == v as usize);
                                }
                            }
                        }
                    }
                }
                k += 1;
            }
            // Re-establish the closure for everything processed so far,
            // the scanned node included.
            proof {
                self.lemma_wf_facts();
                if found is None {
                    let win_new = queue@.subrange(head as int, queue@.len() as int);
                    let win_old = old_q.subrange(old_head, old_q.len() as int);
                    assert forall|v: int, e: int|
                        #![trigger visited@[v], self.edges()[e]]
                        0 <= v < n && visited@[v] && !win_new.contains(v as usize) && 0 <= e
                            < self.edges().len() && self.edges()[e].0 == v && edge_ok(
                            self.edges()[e],
                            avoid@,
                            avoid_props,
                        ) implies visited@[self.edges()[e].1 as int] by {
                        if !old_vis[v] {
                            let app = queue@.subrange(old_q.len() as int, queue@.len() as int);
                            assert(app.contains(v as usize));
                            let t = choose|t: int| 0 <= t < app.len() && app[t] == v as usize;
                            assert(win_new[old_q.len() - head + t] == v as usize);
                            assert(false);
                        } else if v == src {
                            assert(ids@.contains(e as usize));
                            let t = choose|t: int| 0 <= t < ids@.len() && ids@[t] == e as usize;
                            assert(edge_ok(self.edges()[ids@[t] as int], avoid@, avoid_props));
                            assert(visited@[self.edges()[ids@[t] as int].1 as int]);
                        } else {
                            assert(!win_old.contains(v as usize)) by {
                                if win_old.contains(v as usize) {
                                    let t = choose|t: int|
                                        0 <= t < win_old.len() && win_old[t] == v as usize;
                                    if t == 0 {
                                        assert(win_old[0] == src);
                                    } else {
                                        assert(old_q[old_head + t] == v as usize);
                                        assert(queue@[old_head + t] == v as usize);
                                        assert(win_new[old_head + t - head] == v as usize);
                                    }
                                }
                            }
                            assert(old_vis[self.edges()[e].1 as int]);
                            assert(visited@[self.edges()[e].1 as int]);
                        }
                    }
                }
            }
        }
        match found {
            None => {
                proof {
                    assert(queue@.subrange(head as int, queue@.len() as int)
                        =~= Seq::<usize>::empty());
                    assert forall|p: Seq<usize>|
                        !path_ok(self.edges(), p, origin, goal@, avoid@, avoid_props) by {
                        if path_ok(self.edges(), p, origin, goal@, avoid@, avoid_props) {
                            if p.len() == 0 {
                                assert(goal@.contains(origin));
                            } else {
                                lemma_route_stays_visited(
                                    self.edges(),
                                    visited@,
                                    origin,
                                    avoid@,
                                    avoid_props,
                                    p,
                                );
                                assert(visited@[self.edges()[p.last() as int].1 as int]);
                                assert(goal@.contains(self.edges()[p.last() as int].1));
                            }
                        }
                    }
                }
                None
            },
            Some(fe) => {
                // Reconstruct the path backward along the recorded
                // predecessor edges, then reverse it.
                let mut rev: Vec<usize> = Vec::new();
                rev.push(fe);
                let (cur0, _) = self.edge_endpoints(fe);
                let mut cur = cur0;
                while cur != origin
                    invariant
                        self.wf(),
                        self.bfs_inv(
                            n,
                            origin,
                            avoid@,
                            avoid_props,
                            visited@,
                            pred@,
                            dist@,
                            queue@,
                        ),
                        cur < n,
                        visited@[cur as int],
                        rev@.len() > 0,
                        rev@.len() + dist@[cur as int] <= 1 + dist@[self.edges()[
                            fe as int].0 as int],
                        forall|i: int|
                            0 <= i < rev@.len() ==> (#[trigger] rev@[i]) < self.edges().len()
                                && edge_ok(self.edges()[rev@[i] as int], avoid@, avoid_props),
                        goal@.contains(self.edges()[rev@[0] as int].1),
                        self.edges()[rev@.last() as int].0 == cur,
                        forall|i: int|
                            0 <= i < rev@.len() - 1 ==> self.edges()[#[trigger] rev@[i] as int].0
                                == self.edges()[rev@[i + 1] as int].1,
                    decreases dist@[cur as int],
                {
                    proof {
                        self.lemma_wf_facts();
                    }
                    let e = pred[cur];
                    rev.push(e);
                    let (src2, _) = self.edge_endpoints(e);
                    cur = src2;
                }
                let mut path: Vec<usize> = Vec::new();
                let mut i: usize = rev.len();
                while i > 0
                    invariant
                        i <= rev@.len(),
                        path@ == rev@.reverse().subrange(0, rev@.len() - i),
                    decreases i,
                {
                    i -= 1;
                    path.push(rev[i]);
                    assert(path@ =~= rev@.reverse().subrange(0, rev@.len() - i));
                }
                proof {
                    // No route can be shorter: any traversable chain of
                    // at most the source's depth ends at a visited
                    // non-goal (or at the reached goal, which sits one
                    // layer deeper), so every route to a goal is at
                    // least one longer than that depth — and the
                    // reconstructed route is at most that long.
                    let dd = dist@[self.edges()[fe as int].0 as int] as int;
                    assert forall|p: Seq<usize>|
                        #![trigger path_ok(self.edges(), p, origin, goal@, avoid@, avoid_props)]
                        path_ok(self.edges(), p, origin, goal@, avoid@, avoid_props) implies p.len()
                        >= rev@.len() by {
                        if path_ok(self.edges(), p, origin, goal@, avoid@, avoid_props) {
                            if p.len() == 0 {
                                assert(goal@.contains(origin));
                            } else if p.len() <= dd {
                                lemma_short_paths_visited(
                                    self.edges(),
                                    visited@,
                                    dist@,
                                    origin,
                                    avoid@,
                                    avoid_props,
                                    dd,
                                    p,
                                );
                                let g = self.edges()[p.last() as int].1;
                                assert(visited@[g as int] && dist@[g as int] <= p.len());
                                assert(goal@.contains(g));
                                if g == self.edges()[fe as int].1 {
                                    assert(dist@[g as int] == dd + 1);
                                } else {
                                    assert(!goal@.contains(g));
                                }
                            } else {
                                assert(p.len() >= dd + 1);
                            }
                        }
                    }
                    assert(path@ =~= rev@.reverse());
                    let pv = path@;
                    let rv = rev@;
                    assert(pv.len() == rv.len());
                    assert(forall|t: int| 0 <= t < pv.len() ==> pv[t] == rv[pv.len() - 1 - t]);
                    assert(path_ok(self.edges(), pv, origin, goal@, avoid@, avoid_props)) by {
                        assert(pv[0] == rv[rv.len() - 1]);
                        assert(self.edges()[pv[0] as int].0 == origin);
                        assert(pv.last() == rv[0]);
                        assert(goal@.contains(self.edges()[pv.last() as int].1));
                        assert(forall|t: int|
                            0 <= t < pv.len() - 1 ==> self.edges()[#[trigger] pv[t] as int].1
                                == self.edges()[pv[t + 1] as int].0) by {
                            assert(forall|t: int|
                                0 <= t < pv.len() - 1 ==> #[trigger] pv[t] == rv[pv.len() - 1 - t]
                                    && pv[t + 1] == rv[pv.len() - 2 - t]);
                        }
                    }
                }
                Some(path)
            },
        }
    }

    /// The shortest route from any origin outside the avoid set: each
    /// origin is searched independently and a shorter result replaces a
    /// longer one, the first origin winning ties. Nothing is returned
    /// exactly when no origin outside the avoid set has a route.
    pub fn any_route_from_one_of(
        &self,
        origins: &Vec<usize>,
        goal: &Vec<usize>,
        avoid: &Vec<usize>,
        avoid_props: u32,
    ) -> (r: Option<Vec<usize>>)
        requires
            self.wf(),
        ensures
            match r {
                Some(v) => (exists|oi: int|
                    0 <= oi < origins@.len() && !avoid@.contains(#[trigger] origins@[oi])
                        && path_ok(self.edges(), v@, origins@[oi], goal@, avoid@, avoid_props)
                        && (forall|oj: int, p: Seq<usize>|
                        #![trigger path_ok(self.edges(), p, origins@[oj], goal@, avoid@, avoid_props)]
                        0 <= oj < oi && !avoid@.contains(origins@[oj]) && path_ok(
                            self.edges(),
                            p,
                            origins@[oj],
                            goal@,
                            avoid@,
                            avoid_props,
                        ) ==> p.len() > v@.len()))
                    && forall|oi: int, p: Seq<usize>|
                    #![trigger path_ok(self.edges(), p, origins@[oi], goal@, avoid@, avoid_props)]
                    0 <= oi < origins@.len() && !avoid@.contains(origins@[oi]) && path_ok(
                        self.edges(),
                        p,
                        origins@[oi],
                        goal@,
                        avoid@,
                        avoid_props,
                    ) ==> p.len() >= v@.len(),
                None => forall|oi: int, p: Seq<usize>|
                    #![trigger path_ok(self.edges(), p, origins@[oi], goal@, avoid@, avoid_props)]
                    0 <= oi < origins@.len() && !avoid@.contains(origins@[oi]) ==> !path_ok(
                        self.edges(),
                        p,
                        origins@[oi],
                        goal@,
                        avoid@,
                        avoid_props,
                    ),
            },
    {
        let mut best: Option<Vec<usize>> = None;
        let n = origins.len();
        let mut i: usize = 0;
        while i < n
            invariant
                self.wf(),
                n == origins@.len(),
                i <= n,
                match best {
                    Some(ref v) => (exists|oi: int|
                        0 <= oi < origins@.len() && !avoid@.contains(#[trigger] origins@[oi])
                            && path_ok(self.edges(), v@, origins@[oi], goal@, avoid@, avoid_props)
                            && (forall|oj: int, p: Seq<usize>|
                            #![trigger path_ok(self.edges(), p, origins@[oj], goal@, avoid@, avoid_props)]
                            0 <= oj < oi && !avoid@.contains(origins@[oj]) && path_ok(
                                self.edges(),
                                p,
                                origins@[oj],
                                goal@,
                                avoid@,
                                avoid_props,
                            ) ==> p.len() > v@.len()))
                        && forall|oi: int, p: Seq<usize>|
                        #![trigger path_ok(self.edges(), p, origins@[oi], goal@, avoid@, avoid_props)]
                        0 <= oi < i && !avoid@.contains(origins@[oi]) && path_ok(
                            self.edges(),
                            p,
                            origins@[oi],
                            goal@,
                            avoid@,
                            avoid_props,
                        ) ==> p.len() >= v@.len(),
                    None => forall|oi: int, p: Seq<usize>|
                        #![trigger path_ok(self.edges(), p, origins@[oi], goal@, avoid@, avoid_props)]
                        0 <= oi < i && !avoid@.contains(origins@[oi]) ==> !path_ok(
                            self.edges(),
                            p,
                            origins@[oi],
                            goal@,
                            avoid@,
                            avoid_props,
                        ),
                },
            decreases n - i,
        {
            let origin = origins[i];
            if !vec_contains(avoid, origin) {
                match self.any_route(origin, goal, avoid, avoid_props) {
                    Some(path) => {
                        let replace = match best {
                            Some(ref prev) => prev.len() > path.len(),
                            None => true,
                        };
                        if replace {
                            best = Some(path);
                        }
                    },
                    None => {},
                }
            }
            i += 1;
        }
        best
    }
}

} // verus!
