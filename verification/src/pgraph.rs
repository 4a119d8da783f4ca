//! Trusted boundary around petgraph's `Graph`, the adjacency store used
//! for both the forward (callee) and the reverse (caller) direction.
//!
//! A graph is modelled by two sequences: the node weights in index order
//! (`graph_names`) and the edges in insertion order (`graph_edges`), each
//! edge a `(source, target, properties)` triple. Node and edge indexes are
//! positions in those sequences; petgraph assigns them sequentially and
//! this crate never removes anything, so they are stable.

use vstd::prelude::*;

use crate::props::PropertySet;

use petgraph::visit::EdgeRef;

verus! {

pub type Store = petgraph::graph::Graph<String, PropertySet>;

#[verifier::external_type_specification]
#[verifier::external_body]
#[verifier::reject_recursive_types(N)]
#[verifier::reject_recursive_types(E)]
#[verifier::reject_recursive_types(Ty)]
#[verifier::reject_recursive_types(Ix)]
pub struct ExGraph<N, E, Ty, Ix>(petgraph::graph::Graph<N, E, Ty, Ix>);

#[verifier::external_type_specification]
#[verifier::external_body]
pub struct ExDirected(petgraph::Directed);

/// The node weights of `g`, in node-index order.
pub uninterp spec fn graph_names(g: Store) -> Seq<Seq<char>>;

/// The edges of `g` as `(source, target, properties)` triples, in
/// edge-index order.
pub uninterp spec fn graph_edges(g: Store) -> Seq<(usize, usize, PropertySet)>;

/// The indexes of the edges of `edges` whose source is `a`, highest first:
/// the order in which petgraph's edge iterator walks a node's outgoing
/// edges (most recently added first).
pub open spec fn edge_ids_from(edges: Seq<(usize, usize, PropertySet)>, a: usize) -> Seq<usize>
    decreases edges.len(),
{
    if edges.len() == 0 {
        Seq::empty()
    } else if edges.last().0 == a {
        seq![(edges.len() - 1) as usize] + edge_ids_from(edges.drop_last(), a)
    } else {
        edge_ids_from(edges.drop_last(), a)
    }
}

/// Relies on petgraph's Graph::new: an empty graph.
#[verifier::external_body]
pub(crate) fn pg_new() -> (g: Store)
    ensures
        graph_names(g) == Seq::<Seq<char>>::empty(),
        graph_edges(g) == Seq::<(usize, usize, PropertySet)>::empty(),
{
    petgraph::graph::Graph::new()
}

/// Relies on petgraph's Graph::add_node: appends one node and returns its
/// index, the node count before the call. petgraph panics only when the
/// count reaches the index type's sentinel, which the precondition rules
/// out.
#[verifier::external_body]
pub(crate) fn pg_add_node(g: &mut Store, name: String) -> (r: usize)
    requires
        graph_names(*old(g)).len() < u32::MAX as usize,
    ensures
        graph_names(*final(g)) == graph_names(*old(g)).push(name@),
        graph_edges(*final(g)) == graph_edges(*old(g)),
        r == graph_names(*old(g)).len(),
{
    g.add_node(name).index()
}

/// Relies on petgraph's Graph::add_edge: appends one edge from `src` to
/// `dst` and returns its index, the edge count before the call. petgraph
/// panics when an endpoint is not a node or the count reaches the index
/// type's sentinel, which the preconditions rule out.
#[verifier::external_body]
pub(crate) fn pg_add_edge(g: &mut Store, src: usize, dst: usize, ps: PropertySet) -> (r: usize)
    requires
        src < graph_names(*old(g)).len(),
        dst < graph_names(*old(g)).len(),
        graph_edges(*old(g)).len() < u32::MAX as usize,
    ensures
        graph_names(*final(g)) == graph_names(*old(g)),
        graph_edges(*final(g)) == graph_edges(*old(g)).push((src, dst, ps)),
        r == graph_edges(*old(g)).len(),
{
    g.add_edge(
        petgraph::graph::NodeIndex::new(src),
        petgraph::graph::NodeIndex::new(dst),
        ps,
    ).index()
}

/// Relies on petgraph's Graph::node_count: the number of nodes.
#[verifier::external_body]
pub(crate) fn pg_node_count(g: &Store) -> (r: usize)
    ensures
        r == graph_names(*g).len(),
{
    g.node_count()
}

/// Relies on petgraph's Graph::edge_count: the number of edges.
#[verifier::external_body]
pub(crate) fn pg_edge_count(g: &Store) -> (r: usize)
    ensures
        r == graph_edges(*g).len(),
{
    g.edge_count()
}

/// Relies on petgraph's node indexing: the weight of node `i`, which
/// exists by the precondition.
#[verifier::external_body]
pub(crate) fn pg_node_name(g: &Store, i: usize) -> (r: String)
    requires
        i < graph_names(*g).len(),
    ensures
        r@ == graph_names(*g)[i as int],
{
    g[petgraph::graph::NodeIndex::new(i)].clone()
}

/// Relies on petgraph's Graph::edge_endpoints: the source and target of
/// edge `e`, which exists by the precondition.
#[verifier::external_body]
pub(crate) fn pg_edge_endpoints(g: &Store, e: usize) -> (r: (usize, usize))
    requires
        e < graph_edges(*g).len(),
    ensures
        r.0 == graph_edges(*g)[e as int].0,
        r.1 == graph_edges(*g)[e as int].1,
{
    let (a, b) = g.edge_endpoints(petgraph::graph::EdgeIndex::new(e)).unwrap();
    (a.index(), b.index())
}

/// Relies on petgraph's edge indexing: the weight of edge `e`, which
/// exists by the precondition.
#[verifier::external_body]
pub(crate) fn pg_edge_props(g: &Store, e: usize) -> (r: PropertySet)
    requires
        e < graph_edges(*g).len(),
    ensures
        r == graph_edges(*g)[e as int].2,
{
    g[petgraph::graph::EdgeIndex::new(e)]
}

/// Relies on petgraph's Graph::edges: the outgoing edges of `a`, listed in
/// reverse order of their addition to the graph (petgraph documents this
/// order for directed graphs). The precondition keeps `a` a node: for a
/// larger value petgraph's index constructor would truncate it to 32
/// bits and answer for the wrong node.
#[verifier::external_body]
pub(crate) fn pg_edges_from(g: &Store, a: usize) -> (r: Vec<usize>)
    requires
        a < graph_names(*g).len(),
    ensures
        r@ == edge_ids_from(graph_edges(*g), a),
{
    g.edges(petgraph::graph::NodeIndex::new(a)).map(|e| e.id().index()).collect()
}

/// A node no edge leaves has an empty edge-id list.
pub proof fn lemma_edge_ids_from_absent(edges: Seq<(usize, usize, PropertySet)>, a: usize)
    requires
        forall|e: int| 0 <= e < edges.len() ==> (#[trigger] edges[e]).0 != a,
    ensures
        edge_ids_from(edges, a) == Seq::<usize>::empty(),
    decreases edges.len(),
{
    if edges.len() > 0 {
        assert(forall|e: int|
            0 <= e < edges.len() - 1 ==> (#[trigger] edges.drop_last()[e]).0 != a);
        lemma_edge_ids_from_absent(edges.drop_last(), a);
    }
}

/// Every id listed for a node is an edge of that node, and every edge of
/// the node is listed once, in strictly decreasing order.
pub proof fn lemma_edge_ids_from(edges: Seq<(usize, usize, PropertySet)>, a: usize)
    requires
        edges.len() <= usize::MAX,
    ensures
        forall|k: int|
            0 <= k < edge_ids_from(edges, a).len() ==> {
                let e = #[trigger] edge_ids_from(edges, a)[k];
                e < edges.len() && edges[e as int].0 == a
            },
        forall|k1: int, k2: int|
            0 <= k1 < k2 < edge_ids_from(edges, a).len() ==> edge_ids_from(edges, a)[k1]
                > edge_ids_from(edges, a)[k2],
        forall|e: int|
            0 <= e < edges.len() && edges[e].0 == a ==> edge_ids_from(edges, a).contains(
                e as usize,
            ),
    decreases edges.len(),
{
    if edges.len() > 0 {
        lemma_edge_ids_from(edges.drop_last(), a);
        let ids = edge_ids_from(edges, a);
        let rest = edge_ids_from(edges.drop_last(), a);
        let n = edges.len() as int;
        assert(forall|e: int|
            0 <= e < n - 1 ==> edges.drop_last()[e] == #[trigger] edges[e]);
        if edges.last().0 == a {
            assert(ids =~= seq![(n - 1) as usize] + rest);
            assert(forall|k: int| 0 <= k < rest.len() ==> ids[k + 1] == #[trigger] rest[k]);
            assert forall|k: int| 0 <= k < ids.len() implies {
                let e = #[trigger] ids[k];
                e < edges.len() && edges[e as int].0 == a
            } by {
                if k == 0 {
                    assert(ids[0] == (n - 1) as usize);
                    assert(edges[n - 1].0 == a);
                } else {
                    assert(ids[k] == rest[k - 1]);
                    assert(rest[k - 1] < n - 1);
                }
            }
            assert forall|k1: int, k2: int| 0 <= k1 < k2 < ids.len() implies ids[k1]
                > ids[k2] by {
                if k1 == 0 {
                    assert(ids[k2] == rest[k2 - 1]);
                    assert(rest[k2 - 1] < n - 1);
                } else {
                    assert(ids[k1] == rest[k1 - 1]);
                    assert(ids[k2] == rest[k2 - 1]);
                }
            }
            assert forall|e: int| 0 <= e < n && edges[e].0 == a implies ids.contains(
                e as usize,
            ) by {
                if e == n - 1 {
                    assert(ids[0] == e as usize);
                } else {
                    assert(rest.contains(e as usize));
                    let k = choose|k: int| 0 <= k < rest.len() && rest[k] == e as usize;
                    assert(ids[k + 1] == e as usize);
                }
            }
        } else {
            assert(ids =~= rest);
            assert forall|e: int| 0 <= e < n && edges[e].0 == a implies ids.contains(
                e as usize,
            ) by {
                assert(e != n - 1);
                assert(rest.contains(e as usize));
            }
        }
    }
}

} // verus!
