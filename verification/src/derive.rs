//! Root and sink derivation, tolerating cycles. Roots are nodes with no
//! callers, sinks nodes with no callees; because a cyclic component has
//! no such member, a depth-first walk with a generation counter picks one
//! representative per cycle it meets. Each set is computed once, frozen,
//! and connected to a fresh synthetic node.

use vstd::prelude::*;

use crate::callgraph::Callgraph;
use crate::callgraph::EdgeModel;
use crate::callgraph::copy_ids;
use crate::callgraph::mirror_edges;
use crate::pgraph::Store;
use crate::pgraph::edge_ids_from;
use crate::pgraph::graph_edges;
use crate::pgraph::lemma_edge_ids_from;
use crate::pgraph::pg_edges_from;
use crate::props::PropertySet;
use crate::routes::count_trues;
use crate::routes::lemma_count_le;
use crate::routes::lemma_count_le_without;
use crate::routes::lemma_count_update;
use crate::routes::lemma_count_zeros;
use vstd::pervasive::VecAdditionalExecFns;

verus! {

/// `v` has no outgoing edge in the given edge list.
pub open spec fn degree_zero(edges: Seq<EdgeModel>, v: usize) -> bool {
    forall|e: int| 0 <= e < edges.len() ==> (#[trigger] edges[e]).0 != v
}

/// `v` has at least one outgoing edge in the given edge list.
pub open spec fn has_out_edge(edges: Seq<EdgeModel>, v: int) -> bool {
    exists|e: int| 0 <= e < edges.len() && (#[trigger] edges[e]).0 == v
}

/// Every node but the synthetic one keeps an outgoing edge in the walked
/// direction: the situation of a graph made of cycles alone.
pub open spec fn all_have_out_edges(edges: Seq<EdgeModel>, n: usize, skip: usize) -> bool {
    forall|v: int| 0 <= v < n && v != skip ==> #[trigger] has_out_edge(edges, v)
}

/// No two edges share a source: every node has at most one outgoing
/// edge in the walked direction.
pub open spec fn deg_le_one(edges: Seq<EdgeModel>) -> bool {
    forall|e1: int, e2: int|
        0 <= e1 < edges.len() && 0 <= e2 < edges.len() && (#[trigger] edges[e1]).0 == (
        #[trigger] edges[e2]).0 ==> e1 == e2
}

/// A topological ranking: every edge strictly raises the rank. A graph
/// has one exactly when it is acyclic.
pub open spec fn rank_ordered(edges: Seq<EdgeModel>, n: nat, rank: Seq<int>) -> bool {
    &&& rank.len() == n
    &&& forall|e: int|
        0 <= e < edges.len() ==> rank[(#[trigger] edges[e]).0 as int] < rank[edges[e].1 as int]
}

/// What the derivation guarantees of its result: only real nodes other
/// than the synthetic one, each at most once, and every node without an
/// outgoing edge (in the walked direction) among them.
pub open spec fn terminal_set_ok(
    edges: Seq<EdgeModel>,
    n: usize,
    skip: usize,
    r: Seq<usize>,
) -> bool {
    &&& forall|k: int| 0 <= k < r.len() ==> (#[trigger] r[k]) < n && r[k] != skip
    &&& forall|k1: int, k2: int| 0 <= k1 < k2 < r.len() ==> r[k1] != r[k2]
    &&& forall|v: int|
        0 <= v < n && v != skip && #[trigger] degree_zero(edges, v as usize) ==> r.contains(
            v as usize,
        )
}

impl Callgraph {
    /// One derivation pass: walks every node's out-edges in the chosen
    /// direction (reverse for roots, forward for sinks), collecting the
    /// nodes without successors and one representative of each cycle the
    /// walk runs into.
    fn derive_terminals(&self, reverse: bool, skip: usize) -> (r: Vec<usize>)
        requires
            self.wf(),
            skip < self.funcs().len(),
            forall|e: int|
                0 <= e < self.edges().len() ==> (#[trigger] self.edges()[e]).0 != skip
                    && self.edges()[e].1 != skip,
        ensures
            terminal_set_ok(
                if reverse {
                    mirror_edges(self.edges())
                } else {
                    self.edges()
                },
                self.funcs().len() as usize,
                skip,
                r@,
            ),
            r@.len() < self.funcs().len(),
            all_have_out_edges(
                if reverse {
                    mirror_edges(self.edges())
                } else {
                    self.edges()
                },
                self.funcs().len() as usize,
                skip,
            ) && self.funcs().len() >= 2 ==> r@.len() >= 1,
            reverse && deg_le_one(mirror_edges(self.edges())) && (exists|rk: Seq<int>|
                rank_ordered(mirror_edges(self.edges()), self.funcs().len(), rk))
                ==> forall|k: int|
                0 <= k < r@.len() ==> degree_zero(mirror_edges(self.edges()), #[trigger] r@[k]),
            !reverse && deg_le_one(self.edges()) && (exists|rk: Seq<int>|
                rank_ordered(self.edges(), self.funcs().len(), rk)) ==> forall|k: int|
                0 <= k < r@.len() ==> degree_zero(self.edges(), #[trigger] r@[k]),
    {
        proof {
            self.lemma_wf_facts();
        }
        let ghost dir_edges: Seq<EdgeModel> = if reverse {
            mirror_edges(self.edges())
        } else {
            self.edges()
        };
        proof {
            assert(forall|e: int|
                0 <= e < dir_edges.len() ==> (#[trigger] dir_edges[e]).0 < self.funcs().len()
                    && dir_edges[e].1 < self.funcs().len() && dir_edges[e].0 != skip
                    && dir_edges[e].1 != skip);
        }
        let n = self.node_count();
        let ghost every = all_have_out_edges(dir_edges, n, skip);
        let ghost hyp = deg_le_one(dir_edges) && (exists|rk: Seq<int>|
            rank_ordered(dir_edges, self.funcs().len(), rk));
        let ghost rank: Seq<int> = if exists|rk: Seq<int>|
            rank_ordered(dir_edges, self.funcs().len(), rk) {
            choose|rk: Seq<int>| rank_ordered(dir_edges, self.funcs().len(), rk)
        } else {
            Seq::empty()
        };
        proof {
            assert(hyp ==> rank_ordered(dir_edges, n as nat, rank));
        }
        let mut seen: Vec<bool> = vec![false; n];
        let mut seen_gen: Vec<usize> = vec![0; n];
        let mut is_term: Vec<bool> = vec![false; n];
        let mut result: Vec<usize> = Vec::new();
        let mut g: usize = 0;
        proof {
            lemma_count_zeros(n as nat);
            assert(seen@ =~= Seq::new(n as nat, |i: int| false));
            assert(is_term@ =~= Seq::new(n as nat, |i: int| false));
        }
        let mut node: usize = 0;
        while node < n
            invariant
                self.wf(),
                n == self.funcs().len(),
                skip < n,
                dir_edges == (if reverse {
                    mirror_edges(self.edges())
                } else {
                    self.edges()
                }),
                forall|e: int|
                    0 <= e < dir_edges.len() ==> (#[trigger] dir_edges[e]).0 < n && dir_edges[e].1
                        < n && dir_edges[e].0 != skip && dir_edges[e].1 != skip,
                seen@.len() == n,
                seen_gen@.len() == n,
                is_term@.len() == n,
                node <= n,
                g <= node,
                forall|v: int| 0 <= v < node && v != skip ==> #[trigger] seen@[v],
                forall|v: int| 0 <= v < n && #[trigger] is_term@[v] ==> seen@[v],
                !seen@[skip as int],
                forall|k: int|
                    0 <= k < result@.len() ==> (#[trigger] result@[k]) < n && result@[k] != skip
                        && is_term@[result@[k] as int],
                forall|v: int|
                    0 <= v < n && #[trigger] is_term@[v] ==> result@.contains(v as usize),
                forall|k1: int, k2: int|
                    0 <= k1 < k2 < result@.len() ==> result@[k1] != result@[k2],
                forall|v: int|
                    0 <= v < n && #[trigger] seen@[v] && degree_zero(dir_edges, v as usize)
                        ==> is_term@[v],
                count_trues(seen@) <= n,
                result@.len() == count_trues(is_term@),
                !is_term@[skip as int],
                forall|v: int|
                    0 <= v < n && seen@[v] ==> 1 <= #[trigger] seen_gen@[v] <= g,
                every == all_have_out_edges(dir_edges, n, skip),
                every ==> (g >= 1 || node <= (if skip == 0 {
                    1int
                } else {
                    0int
                })),
                every && g >= 1 ==> result@.len() >= 1,
                hyp == (deg_le_one(dir_edges) && (exists|rk: Seq<int>|
                    rank_ordered(dir_edges, n as nat, rk))),
                hyp ==> rank_ordered(dir_edges, n as nat, rank),
                hyp ==> forall|k: int|
                    0 <= k < result@.len() ==> degree_zero(dir_edges, #[trigger] result@[k]),
            decreases n - node,
        {
            if node != skip && !seen[node] {
                g += 1;
                let mut work: Vec<usize> = Vec::new();
                work.push(node);
                proof {
                    assert(work@ =~= seq![node]);
                    assert(forall|v: int|
                        0 <= v < n && seen@[v] ==> #[trigger] seen_gen@[v] < g);
                }
                while work.len() > 0
                    invariant
                        self.wf(),
                        n == self.funcs().len(),
                        skip < n,
                        dir_edges == (if reverse {
                            mirror_edges(self.edges())
                        } else {
                            self.edges()
                        }),
                        forall|e: int|
                            0 <= e < dir_edges.len() ==> (#[trigger] dir_edges[e]).0 < n
                                && dir_edges[e].1 < n && dir_edges[e].0 != skip && dir_edges[e].1
                                != skip,
                        seen@.len() == n,
                        seen_gen@.len() == n,
                        is_term@.len() == n,
                        forall|v: int| 0 <= v < node && v != skip ==> #[trigger] seen@[v],
                        forall|v: int| 0 <= v < n && #[trigger] is_term@[v] ==> seen@[v],
                        !seen@[skip as int],
                        forall|t: int|
                            0 <= t < work@.len() ==> (#[trigger] work@[t]) < n && work@[t] != skip,
                        forall|k: int|
                            0 <= k < result@.len() ==> (#[trigger] result@[k]) < n && result@[k]
                                != skip && is_term@[result@[k] as int],
                        forall|v: int|
                            0 <= v < n && #[trigger] is_term@[v] ==> result@.contains(v as usize),
                        forall|k1: int, k2: int|
                            0 <= k1 < k2 < result@.len() ==> result@[k1] != result@[k2],
                        forall|v: int|
                            0 <= v < n && #[trigger] seen@[v] && degree_zero(dir_edges, v as usize)
                                ==> is_term@[v],
                        count_trues(seen@) <= n,
                        result@.len() == count_trues(is_term@),
                        !is_term@[skip as int],
                        !seen@[node as int] ==> work@ == seq![node],
                        forall|v: int|
                            0 <= v < n && seen@[v] ==> 1 <= #[trigger] seen_gen@[v] <= g,
                        g >= 1,
                        every == all_have_out_edges(dir_edges, n, skip),
                        every ==> (result@.len() >= 1 || (g == 1 && work@.len() > 0)),
                        hyp == (deg_le_one(dir_edges) && (exists|rk: Seq<int>|
                            rank_ordered(dir_edges, n as nat, rk))),
                        hyp ==> rank_ordered(dir_edges, n as nat, rank),
                        hyp ==> work@.len() <= 1,
                        hyp && work@.len() == 1 ==> forall|v: int|
                            0 <= v < n && seen@[v] && seen_gen@[v] == g ==> #[trigger] rank[v]
                                < rank[work@[0] as int],
                        hyp ==> forall|k: int|
                            0 <= k < result@.len() ==> degree_zero(
                                dir_edges,
                                #[trigger] result@[k],
                            ),
                    ensures
                        seen@[node as int],
                        every ==> result@.len() >= 1,
                    decreases n - count_trues(seen@), work@.len(),
                {
                    proof {
                        self.lemma_wf_facts();
                    }
                    let id = match work.pop() {
                        Some(x) => x,
                        None => {
                            proof {
                                assert(false);
                            }
                            0
                        },
                    };
                    if seen[id] {
                        if seen_gen[id] == g {
                            proof {
                                // With at most one outgoing edge per
                                // node and a topological ranking, the
                                // walk is a chain of strictly rising
                                // rank, so it cannot come back.
                                if hyp {
                                    assert(rank[id as int] < rank[id as int]);
                                }
                            }
                            // Reached again in the same generation: a
                            // cycle; designate this node and stop the
                            // walk so one cycle yields one member.
                            if !is_term[id] {
                                proof {
                                    lemma_count_update(is_term@, id as int);
                                }
                                let ghost pre_result = result@;
                                let ghost pre_term = is_term@;
                                result.push(id);
                                is_term.set(id, true);
                                proof {
                                    assert forall|v: int|
                                        0 <= v < n && #[trigger] is_term@[v]
                                            implies result@.contains(v as usize) by {
                                        if v == id {
                                            assert(result@[result@.len() - 1] == id);
                                        } else {
                                            assert(pre_term[v]);
                                            assert(pre_result.contains(v as usize));
                                            let t = choose|t: int|
                                                0 <= t < pre_result.len() && pre_result[t]
                                                    == v as usize;
                                            assert(result@[t] == v as usize);
                                        }
                                    }
                                }
                            }
                            proof {
                                assert(is_term@[id as int]);
                                assert(result@.contains(id));
                                assert(result@.len() >= 1);
                            }
                            break ;
                        }
                        // Reached from an older generation: already
                        // accounted for by that generation's walk.
                    } else {
                        proof {
                            lemma_count_update(seen@, id as int);
                            lemma_count_le(seen@.update(id as int, true));
                        }
                        seen.set(id, true);
                        seen_gen.set(id, g);
                        proof {
                            if hyp {
                                assert forall|v: int|
                                    0 <= v < n && seen@[v] && seen_gen@[v] == g
                                        implies #[trigger] rank[v] <= rank[id as int] by {
                                }
                            }
                        }
                        let store: &Store = if reverse {
                            self.caller_graph_ref()
                        } else {
                            self.graph_ref()
                        };
                        let ids = pg_edges_from(store, id);
                        proof {
                            lemma_edge_ids_from(dir_edges, id);
                        }
                        if ids.len() == 0 {
                            proof {
                                assert(degree_zero(dir_edges, id)) by {
                                    assert forall|e: int|
                                        0 <= e < dir_edges.len() implies (
                                        #[trigger] dir_edges[e]).0 != id by {
                                        if dir_edges[e].0 == id {
                                            assert(edge_ids_from(dir_edges, id).contains(
                                                e as usize,
                                            ));
                                        }
                                    }
                                }
                                // A node with no outgoing edge refutes
                                // the all-cycles situation.
                                if every {
                                    assert(has_out_edge(dir_edges, id as int));
                                    let e0 = choose|e: int|
                                        0 <= e < dir_edges.len() && (#[trigger] dir_edges[e]).0
                                            == id as int;
                                    assert(false);
                                }
                            }
                            if !is_term[id] {
                                proof {
                                    lemma_count_update(is_term@, id as int);
                                }
                                let ghost pre_result = result@;
                                let ghost pre_term = is_term@;
                                result.push(id);
                                is_term.set(id, true);
                                proof {
                                    assert forall|v: int|
                                        0 <= v < n && #[trigger] is_term@[v]
                                            implies result@.contains(v as usize) by {
                                        if v == id {
                                            assert(result@[result@.len() - 1] == id);
                                        } else {
                                            assert(pre_term[v]);
                                            assert(pre_result.contains(v as usize));
                                            let t = choose|t: int|
                                                0 <= t < pre_result.len() && pre_result[t]
                                                    == v as usize;
                                            assert(result@[t] == v as usize);
                                        }
                                    }
                                }
                            }
                        } else {
                            proof {
                                assert(!degree_zero(dir_edges, id)) by {
                                    assert(edge_ids_from(dir_edges, id).len() > 0);
                                    let e0 = edge_ids_from(dir_edges, id)[0];
                                    assert(dir_edges[e0 as int].0 == id);
                                }
                            }
                            let m = ids.len();
                            proof {
                                if hyp && m >= 2 {
                                    assert(ids@[0] > ids@[1]);
                                    assert(dir_edges[ids@[0] as int].0 == id);
                                    assert(dir_edges[ids@[1] as int].0 == id);
                                }
                            }
                            let mut t: usize = 0;
                            while t < m
                                invariant
                                    self.wf(),
                                    n == self.funcs().len(),
                                    dir_edges == (if reverse {
                                        mirror_edges(self.edges())
                                    } else {
                                        self.edges()
                                    }),
                                    forall|e: int|
                                        0 <= e < dir_edges.len() ==> (#[trigger] dir_edges[e]).0
                                            < n && dir_edges[e].1 < n && dir_edges[e].0 != skip
                                            && dir_edges[e].1 != skip,
                                    m == ids@.len(),
                                    t <= m,
                                    ids@ == edge_ids_from(dir_edges, id),
                                    forall|u: int|
                                        0 <= u < ids@.len() ==> (#[trigger] ids@[u])
                                            < dir_edges.len() && dir_edges[ids@[u] as int].0 == id,
                                    forall|u: int|
                                        0 <= u < work@.len() ==> (#[trigger] work@[u]) < n
                                            && work@[u] != skip,
                                    id < n,
                                    seen@[id as int],
                                    seen_gen@[id as int] == g,
                                    hyp == (deg_le_one(dir_edges) && (exists|rk: Seq<int>|
                                        rank_ordered(dir_edges, n as nat, rk))),
                                    hyp ==> rank_ordered(dir_edges, n as nat, rank),
                                    hyp ==> m <= 1,
                                    hyp ==> work@.len() == t,
                                    hyp && t == 1 ==> work@[0] == dir_edges[ids@[0] as int].1,
                                    hyp ==> forall|v: int|
                                        0 <= v < n && seen@[v] && seen_gen@[v] == g
                                            ==> #[trigger] rank[v] <= rank[id as int],
                                    work@.len() >= t,
                                decreases m - t,
                            {
                                let e = ids[t];
                                let dst = if reverse {
                                    let (_, d) = crate::pgraph::pg_edge_endpoints(
                                        self.caller_graph_ref(),
                                        e,
                                    );
                                    d
                                } else {
                                    let (_, d) = self.edge_endpoints(e);
                                    d
                                };
                                proof {
                                    assert(dst == dir_edges[ids@[t as int] as int].1);
                                }
                                work.push(dst);
                                t += 1;
                            }
                            proof {
                                if hyp {
                                    assert(m == 1);
                                    assert(work@.len() == 1);
                                    assert(work@[0] == dir_edges[ids@[0] as int].1);
                                    assert(rank[id as int] < rank[work@[0] as int]);
                                    assert forall|v: int|
                                        0 <= v < n && seen@[v] && seen_gen@[v] == g
                                            implies #[trigger] rank[v]
                                            < rank[work@[0] as int] by {
                                        assert(rank[v] <= rank[id as int]);
                                    }
                                }
                            }
                        }
                    }
                }
            }
            proof {
                if node != skip && seen@[node as int] {
                    assert(1 <= seen_gen@[node as int]);
                }
            }
            node += 1;
        }
        proof {
            assert forall|v: int|
                0 <= v < n && v != skip && #[trigger] degree_zero(dir_edges, v as usize)
                    implies result@.contains(v as usize) by {
                assert(seen@[v]);
                assert(is_term@[v]);
            }
            lemma_count_le_without(is_term@, skip as int);
        }
        result
    }

    /// The root set: nodes with no callers, plus designated members of
    /// the cycles the walk runs into. Computed once; the first call adds
    /// a synthetic `<root>` node with an edge to every member, and later
    /// calls return the frozen set.
    ///
    /// What the contract pins down: every zero-caller node is in the
    /// set, the set is never empty (when every node has a caller, a
    /// cycle designee is found), and on a graph with a topological
    /// ranking whose nodes have at most one caller each the set is
    /// exactly the zero-caller nodes. The walk designates one node per
    /// cycle it meets and stops that generation, but that each cycle
    /// contributes exactly one member is not stated here: on a node
    /// reached twice within one generation over two caller paths the
    /// walk designates a spurious member, so only the weaker bounds
    /// above hold of it in general.
    pub fn roots(&mut self) -> (r: Vec<usize>)
        requires
            old(self).wf(),
            old(self).funcs().len() < u32::MAX as usize,
            old(self).edges().len() + old(self).funcs().len() < u32::MAX as usize,
        ensures
            final(self).wf(),
            match old(self).root_set() {
                Some(rs) => r@ == rs && *final(self) == *old(self),
                None => {
                    &&& terminal_set_ok(
                        mirror_edges(old(self).edges()),
                        old(self).funcs().len() as usize,
                        old(self).funcs().len() as usize,
                        r@,
                    )
                    &&& r@.len() <= old(self).funcs().len()
                    &&& all_have_out_edges(
                        mirror_edges(old(self).edges()),
                        (old(self).funcs().len() + 1) as usize,
                        old(self).funcs().len() as usize,
                    ) ==> r@.len() >= 1
                    &&& deg_le_one(mirror_edges(old(self).edges())) && (exists|rk: Seq<int>|
                        rank_ordered(
                            mirror_edges(old(self).edges()),
                            old(self).funcs().len(),
                            rk,
                        )) ==> forall|k: int|
                        0 <= k < r@.len() ==> degree_zero(
                            mirror_edges(old(self).edges()),
                            #[trigger] r@[k],
                        )
                    &&& final(self).root_set() == Some(r@)
                    &&& final(self).root_node() == old(self).funcs().len()
                    &&& final(self).funcs() == old(self).funcs().push("<root>"@)
                    &&& final(self).edges() == old(self).edges() + r@.map_values(
                        |v: usize| (old(self).funcs().len() as usize, v, PropertySet { all: 0, any: 0 }),
                    )
                    &&& final(self).alts() == old(self).alts().push(Seq::<Seq<char>>::empty())
                    &&& final(self).stems() == old(self).stems()
                    &&& final(self).props() == old(self).props()
                    &&& final(self).sink_set() == old(self).sink_set()
                    &&& final(self).sink_node() == old(self).sink_node()
                },
            },
    {
        proof {
            self.lemma_wf_facts();
        }
        if let Some(cached) = self.root_list_ref() {
            return copy_ids(cached);
        }
        let root_idx = self.add_function("<root>");
        let result = self.derive_terminals(true, root_idx);
        proof {
            assert(mirror_edges(self.edges()) =~= mirror_edges(old(self).edges()));
            assert(terminal_set_ok(
                mirror_edges(old(self).edges()),
                old(self).funcs().len() as usize,
                root_idx,
                result@,
            )) by {
                assert(self.funcs().len() == old(self).funcs().len() + 1);
                assert(forall|k: int|
                    0 <= k < result@.len() ==> (#[trigger] result@[k]) < self.funcs().len()
                        && result@[k] != root_idx);
            }
        }
        proof {
            let oedges = mirror_edges(old(self).edges());
            let n0 = old(self).funcs().len();
            if deg_le_one(oedges) && (exists|rk: Seq<int>| rank_ordered(oedges, n0, rk)) {
                let rk = choose|rk: Seq<int>| rank_ordered(oedges, n0, rk);
                let rk2 = rk.push(0);
                assert(rank_ordered(mirror_edges(self.edges()), self.funcs().len(), rk2)) by {
                    assert(mirror_edges(self.edges()) == oedges);
                    assert forall|e: int| 0 <= e < oedges.len() implies rk2[(
                    #[trigger] oedges[e]).0 as int] < rk2[oedges[e].1 as int] by {
                        assert(oedges[e].0 < n0 && oedges[e].1 < n0);
                        assert(rk2[oedges[e].0 as int] == rk[oedges[e].0 as int]);
                        assert(rk2[oedges[e].1 as int] == rk[oedges[e].1 as int]);
                    }
                }
                assert(deg_le_one(mirror_edges(self.edges())));
                assert forall|k: int| 0 <= k < result@.len() implies degree_zero(
                    oedges,
                    #[trigger] result@[k],
                ) by {
                    assert(degree_zero(mirror_edges(self.edges()), result@[k]));
                }
            }
        }
        self.freeze_roots(&result, root_idx);
        let out = copy_ids(&result);
        proof {
            let oedges = mirror_edges(old(self).edges());
            if deg_le_one(oedges) && (exists|rk: Seq<int>|
                rank_ordered(oedges, old(self).funcs().len(), rk)) {
                assert forall|k: int| 0 <= k < out@.len() implies degree_zero(
                    oedges,
                    #[trigger] out@[k],
                ) by {
                    assert(out@[k] == result@[k]);
                    assert(degree_zero(oedges, result@[k]));
                }
            }
        }
        out
    }

    /// The sink set: nodes with no callees, plus designated members of
    /// the cycles the walk runs into. Computed once; the first call adds
    /// a synthetic `<sink>` node with an edge from every member, and
    /// later calls return the frozen set. The contract mirrors the root
    /// set's: zero-callee completeness, nonemptiness when every node has
    /// a callee, and exactness under a topological ranking with at most
    /// one callee per node; how many members one cycle contributes is
    /// not stated, for the reason given at the root set.
    pub fn sinks(&mut self) -> (r: Vec<usize>)
        requires
            old(self).wf(),
            old(self).funcs().len() < u32::MAX as usize,
            old(self).edges().len() + old(self).funcs().len() < u32::MAX as usize,
        ensures
            final(self).wf(),
            match old(self).sink_set() {
                Some(ss) => r@ == ss && *final(self) == *old(self),
                None => {
                    &&& terminal_set_ok(
                        old(self).edges(),
                        old(self).funcs().len() as usize,
                        old(self).funcs().len() as usize,
                        r@,
                    )
                    &&& r@.len() <= old(self).funcs().len()
                    &&& all_have_out_edges(
                        old(self).edges(),
                        (old(self).funcs().len() + 1) as usize,
                        old(self).funcs().len() as usize,
                    ) ==> r@.len() >= 1
                    &&& deg_le_one(old(self).edges()) && (exists|rk: Seq<int>|
                        rank_ordered(old(self).edges(), old(self).funcs().len(), rk))
                        ==> forall|k: int|
                        0 <= k < r@.len() ==> degree_zero(old(self).edges(), #[trigger] r@[k])
                    &&& final(self).sink_set() == Some(r@)
                    &&& final(self).sink_node() == old(self).funcs().len()
                    &&& final(self).funcs() == old(self).funcs().push("<sink>"@)
                    &&& final(self).edges() == old(self).edges() + r@.map_values(
                        |v: usize| (v, old(self).funcs().len() as usize, PropertySet { all: 0, any: 0 }),
                    )
                    &&& final(self).alts() == old(self).alts().push(Seq::<Seq<char>>::empty())
                    &&& final(self).stems() == old(self).stems()
                    &&& final(self).props() == old(self).props()
                    &&& final(self).root_set() == old(self).root_set()
                    &&& final(self).root_node() == old(self).root_node()
                },
            },
    {
        proof {
            self.lemma_wf_facts();
        }
        if let Some(cached) = self.sink_list_ref() {
            return copy_ids(cached);
        }
        let sink_idx = self.add_function("<sink>");
        let result = self.derive_terminals(false, sink_idx);
        proof {
            assert(terminal_set_ok(
                old(self).edges(),
                old(self).funcs().len() as usize,
                sink_idx,
                result@,
            )) by {
                assert(self.funcs().len() == old(self).funcs().len() + 1);
            }
        }
        proof {
            let oedges = old(self).edges();
            let n0 = old(self).funcs().len();
            if deg_le_one(oedges) && (exists|rk: Seq<int>| rank_ordered(oedges, n0, rk)) {
                let rk = choose|rk: Seq<int>| rank_ordered(oedges, n0, rk);
                let rk2 = rk.push(0);
                assert(rank_ordered(self.edges(), self.funcs().len(), rk2)) by {
                    assert(self.edges() == oedges);
                    assert forall|e: int| 0 <= e < oedges.len() implies rk2[(
                    #[trigger] oedges[e]).0 as int] < rk2[oedges[e].1 as int] by {
                        assert(oedges[e].0 < n0 && oedges[e].1 < n0);
                        assert(rk2[oedges[e].0 as int] == rk[oedges[e].0 as int]);
                        assert(rk2[oedges[e].1 as int] == rk[oedges[e].1 as int]);
                    }
                }
                assert(deg_le_one(self.edges()));
                assert forall|k: int| 0 <= k < result@.len() implies degree_zero(
                    oedges,
                    #[trigger] result@[k],
                ) by {
                    assert(degree_zero(self.edges(), result@[k]));
                }
            }
        }
        self.freeze_sinks(&result, sink_idx);
        let out = copy_ids(&result);
        proof {
            let oedges = old(self).edges();
            if deg_le_one(oedges) && (exists|rk: Seq<int>|
                rank_ordered(oedges, old(self).funcs().len(), rk)) {
                assert forall|k: int| 0 <= k < out@.len() implies degree_zero(
                    oedges,
                    #[trigger] out@[k],
                ) by {
                    assert(out@[k] == result@[k]);
                    assert(degree_zero(oedges, result@[k]));
                }
            }
        }
        out
    }
}

} // verus!
