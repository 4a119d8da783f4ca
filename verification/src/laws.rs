//! The laws the library states of itself, beyond the contracts of the
//! single functions: how identifier references resolve, what the regex
//! strategy answers when nothing matches, and what never stands on a
//! returned route.

use vstd::prelude::*;

use crate::callgraph::EdgeModel;
use crate::derive::degree_zero;
use crate::ingest::LoadModel;
use crate::ingest::indirects_upto;
use crate::ingest::lemma_indirects_fold;
use crate::ingest::lemma_seen_find_entry;
use crate::ingest::seen_find;
use crate::props::PropertySet;
use crate::derive::terminal_set_ok;
use crate::describe::describe_spec;
use crate::callgraph::DescriptionBrevity;
use crate::resolve::is_regex_delim;
use crate::resolve::regex_node_match;
use crate::resolve::regex_results;
use crate::resolve::resolve_spec;
use crate::resolve::stem_lookup;
use crate::routes::edge_ok;
use crate::routes::path_ok;
use crate::rx::re_valid;
use crate::text::dec_repr;
use crate::text::dec_value;
use crate::text::lemma_dec_repr_value;

verus! {

/// An identifier reference resolves to exactly that identifier when it
/// is in range, and to nothing when it is out of range — provided no
/// registered stem shadows the reference, stems being tried first.
pub proof fn lemma_resolve_identifier(
    funcs: Seq<Seq<char>>,
    alts: Seq<Seq<Seq<char>>>,
    stems: Seq<(Seq<char>, Seq<usize>)>,
    id: u32,
)
    requires
        stem_lookup(stems, seq!['#'] + dec_repr(id as nat)) is None,
    ensures
        resolve_spec(funcs, alts, stems, seq!['#'] + dec_repr(id as nat)) == if (id as int)
            < funcs.len() {
            Some(seq![id as usize])
        } else {
            None::<Seq<usize>>
        },
{
    lemma_dec_repr_value(id as nat);
    let p = seq!['#'] + dec_repr(id as nat);
    assert(p.len() > 0);
    assert(p[0] == '#');
    assert(!is_regex_delim(p));
    let digits = p.subrange(1, p.len() as int);
    assert(digits =~= dec_repr(id as nat));
    assert(dec_value(digits) == id as nat);
    if (id as int) < funcs.len() {
        assert(resolve_spec(funcs, alts, stems, p) == Some(seq![dec_value(digits) as usize]));
        assert(seq![dec_value(digits) as usize] =~= seq![id as usize]);
    }
}

/// When no node matches the regex, its results are empty.
proof fn lemma_regex_results_empty(
    funcs: Seq<Seq<char>>,
    alts: Seq<Seq<Seq<char>>>,
    p: Seq<char>,
    n: int,
)
    requires
        forall|i: int| 1 <= i < n ==> !#[trigger] regex_node_match(funcs, alts, i, p),
    ensures
        regex_results(funcs, alts, p, n) == Seq::<usize>::empty(),
    decreases n,
{
    if n > 1 {
        lemma_regex_results_empty(funcs, alts, p, n - 1);
        assert(regex_results(funcs, alts, p, n) =~= Seq::<usize>::empty());
    } else {
        assert(regex_results(funcs, alts, p, n) =~= Seq::<usize>::empty());
    }
}

/// A valid regex pattern that matches no name of any node (the sentinel
/// aside) resolves to an empty — but present — result set, unlike the
/// other strategies, which pass or fail instead of answering emptily.
pub proof fn lemma_resolve_regex_empty(
    funcs: Seq<Seq<char>>,
    alts: Seq<Seq<Seq<char>>>,
    stems: Seq<(Seq<char>, Seq<usize>)>,
    p: Seq<char>,
)
    requires
        is_regex_delim(p),
        stem_lookup(stems, p) is None,
        re_valid(p.subrange(1, p.len() - 1)),
        forall|i: int|
            1 <= i < funcs.len() ==> !#[trigger] regex_node_match(
                funcs,
                alts,
                i,
                p.subrange(1, p.len() - 1),
            ),
    ensures
        resolve_spec(funcs, alts, stems, p) == Some(Seq::<usize>::empty()),
{
    lemma_regex_results_empty(funcs, alts, p.subrange(1, p.len() - 1), funcs.len() as int);
}

/// No returned route crosses an avoided node or an edge on which an
/// avoided property is guaranteed: every edge of a valid route has a
/// target outside the avoid set and an `all` mask disjoint from the
/// avoided properties.
pub proof fn lemma_route_respects_avoidance(
    edges: Seq<EdgeModel>,
    path: Seq<usize>,
    origin: usize,
    goal: Seq<usize>,
    avoid: Seq<usize>,
    props: u32,
)
    requires
        path_ok(edges, path, origin, goal, avoid, props),
    ensures
        forall|i: int|
            0 <= i < path.len() ==> !avoid.contains(edges[#[trigger] path[i] as int].1) && edges[
                path[i] as int].2.all & props == 0,
{
    assert(forall|i: int|
        0 <= i < path.len() ==> edge_ok(edges[#[trigger] path[i] as int], avoid, props));
}

/// When every derived member has no outgoing edge in the walked
/// direction — which `roots` and `sinks` guarantee on a graph that has a
/// topological ranking and at most one such edge per node — the derived
/// set is exactly the zero-degree nodes other than the synthetic one.
pub proof fn lemma_terminal_set_exact(
    edges: Seq<EdgeModel>,
    n: usize,
    skip: usize,
    r: Seq<usize>,
)
    requires
        terminal_set_ok(edges, n, skip, r),
        forall|k: int| 0 <= k < r.len() ==> degree_zero(edges, #[trigger] r[k]),
    ensures
        forall|v: usize|
            #![trigger r.contains(v)]
            r.contains(v) <==> (v < n && v != skip && degree_zero(edges, v)),
{
    assert forall|v: usize|
        r.contains(v) <==> (v < n && v != skip && degree_zero(edges, v)) by {
        if r.contains(v) {
            let k = choose|k: int| 0 <= k < r.len() && r[k] == v;
            assert(degree_zero(edges, r[k]));
        }
        if v < n && v != skip && degree_zero(edges, v) {
            let vi = v as int;
            assert(v == vi as usize);
            assert(degree_zero(edges, vi as usize));
            assert(r.contains(vi as usize));
        }
    }
}

/// A brief description is the canonical name itself, whatever the
/// alternate names: re-describing a loaded node briefly reproduces the
/// name the description declared.
pub proof fn lemma_brief_describes_canonical(
    name: Seq<char>,
    alts: Seq<Seq<char>>,
    id: nat,
)
    ensures
        describe_spec(name, alts, id, DescriptionBrevity::Brief) == name,
{
}


/// Two deferred indirect calls naming the same target description with
/// the same property set share one materialized target node: the
/// records' edges aim at the same node, each from its own source with
/// its own line's property set.
pub proof fn lemma_indirect_targets_shared(
    m0: LoadModel,
    inds: Seq<(u32, Seq<char>, PropertySet, u32)>,
    j1: int,
    j2: int,
)
    requires
        m0.funcs.len() + inds.len() <= usize::MAX,
        indirects_upto(m0, inds, inds.len() as int) is Ok,
        0 <= j1 < j2 < inds.len(),
        inds[j1].1 == inds[j2].1,
        inds[j1].2 == inds[j2].2,
    ensures
        ({
            let m = indirects_upto(m0, inds, inds.len() as int)->Ok_0.0;
            &&& m.edges.len() == m0.edges.len() + inds.len()
            &&& m.edges[m0.edges.len() + j1].1 == m.edges[m0.edges.len() + j2].1
            &&& m.edges[m0.edges.len() + j1].0 == inds[j1].0 as usize
            &&& m.edges[m0.edges.len() + j2].0 == inds[j2].0 as usize
            &&& m.edges[m0.edges.len() + j1].2 == inds[j1].2
            &&& m.edges[m0.edges.len() + j2].2 == inds[j2].2
        }),
{
    lemma_indirects_fold(m0, inds, inds.len() as int);
}

/// Deferred indirect calls whose target description or property set
/// differ get distinct materialized target nodes.
pub proof fn lemma_indirect_targets_distinct(
    m0: LoadModel,
    inds: Seq<(u32, Seq<char>, PropertySet, u32)>,
    j1: int,
    j2: int,
)
    requires
        m0.funcs.len() + inds.len() <= usize::MAX,
        indirects_upto(m0, inds, inds.len() as int) is Ok,
        0 <= j1 < j2 < inds.len(),
        !(inds[j1].1 == inds[j2].1 && inds[j1].2 == inds[j2].2),
    ensures
        ({
            let m = indirects_upto(m0, inds, inds.len() as int)->Ok_0.0;
            &&& m.edges.len() == m0.edges.len() + inds.len()
            &&& m.edges[m0.edges.len() + j1].1 != m.edges[m0.edges.len() + j2].1
        }),
{
    lemma_indirects_fold(m0, inds, inds.len() as int);
    let seen = indirects_upto(m0, inds, inds.len() as int)->Ok_0.1;
    let t1 = seen_find(seen, inds[j1].1, inds[j1].2)->0;
    let t2 = seen_find(seen, inds[j2].1, inds[j2].2)->0;
    if t1 == t2 {
        lemma_seen_find_entry(seen, inds[j1].1, inds[j1].2);
        lemma_seen_find_entry(seen, inds[j2].1, inds[j2].2);
        let i1 = choose|i: int|
            0 <= i < seen.len() && (#[trigger] seen[i]) == (inds[j1].1, inds[j1].2, t1);
        let i2 = choose|i: int|
            0 <= i < seen.len() && (#[trigger] seen[i]) == (inds[j2].1, inds[j2].2, t2);
        if i1 == i2 {
            assert(inds[j1].1 == inds[j2].1 && inds[j1].2 == inds[j2].2);
        } else {
            assert(seen[i1].2 != seen[i2].2);
        }
    }
}

} // verus!
