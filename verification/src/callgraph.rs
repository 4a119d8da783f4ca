//! The graph store: functions as integer-identified nodes, call edges with
//! property sets, a mirrored reverse graph kept in lockstep, the name
//! tables, and the property-name table.
//!
//! Node identifiers equal insertion order and are never reused; identifier
//! zero is a sentinel created at initialization. Every edge insertion
//! writes the forward edge and its mirror in the reverse graph, so the two
//! directions always agree.

use vstd::prelude::*;

use crate::pgraph::Store;
use crate::pgraph::edge_ids_from;
use crate::pgraph::graph_edges;
use crate::pgraph::graph_names;
use crate::pgraph::lemma_edge_ids_from;
use crate::pgraph::pg_add_edge;
use crate::pgraph::pg_add_node;
use crate::pgraph::pg_edge_endpoints;
use crate::pgraph::pg_edge_props;
use crate::pgraph::pg_edges_from;
use crate::pgraph::pg_new;
use crate::pgraph::pg_node_count;
use crate::pgraph::pg_node_name;
use crate::props::PropertySet;
use crate::stems::stems_add;
use crate::stems::stem_of;
use vstd::pervasive::VecAdditionalExecFns;
use vstd::string::StringExecFns;

verus! {

/// How much of a node a description shows: the canonical name alone, the
/// identifier with one display name, or the identifier with every name.
#[derive(Copy, Clone, PartialEq, Eq, Structural, Debug)]
pub enum DescriptionBrevity {
    Brief,
    Normal,
    Verbose,
}

/// An edge of the call graph, as the specification sees it: source node,
/// target node, property set.
pub type EdgeModel = (usize, usize, PropertySet);

/// No two entries of the stem table share a key.
pub open spec fn stem_keys_distinct(t: Seq<(Seq<char>, Seq<usize>)>) -> bool {
    forall|i: int, j: int| 0 <= i < j < t.len() ==> (#[trigger] t[i]).0 != (#[trigger] t[j]).0
}

/// Every identifier in the stem table is a node.
pub open spec fn stem_ids_bounded(t: Seq<(Seq<char>, Seq<usize>)>, n: nat) -> bool {
    forall|i: int, k: int|
        0 <= i < t.len() && 0 <= k < (#[trigger] t[i]).1.len() ==> #[trigger] t[i].1[k] < n
}

/// No two entries of the property-name table share a bit.
pub open spec fn prop_bits_distinct(t: Seq<(u32, Seq<char>)>) -> bool {
    forall|i: int, j: int| 0 <= i < j < t.len() ==> (#[trigger] t[i]).0 != (#[trigger] t[j]).0
}

/// The property table after giving `bit` the display name `name`: an
/// existing entry is renamed in place, a new bit goes to the end.
pub open spec fn props_upsert(t: Seq<(u32, Seq<char>)>, bit: u32, name: Seq<char>) -> Seq<
    (u32, Seq<char>),
>
    decreases t.len(),
{
    if t.len() == 0 {
        seq![(bit, name)]
    } else if t[0].0 == bit {
        seq![(bit, name)] + t.drop_first()
    } else {
        seq![t[0]] + props_upsert(t.drop_first(), bit, name)
    }
}

/// When `bit` is the key of entry `i` (and of no earlier entry), the
/// upsert renames entry `i` and leaves the rest unchanged.
proof fn lemma_props_upsert_found(t: Seq<(u32, Seq<char>)>, bit: u32, name: Seq<char>, i: int)
    requires
        0 <= i < t.len(),
        t[i].0 == bit,
        forall|k: int| 0 <= k < i ==> (#[trigger] t[k]).0 != bit,
    ensures
        props_upsert(t, bit, name) == t.update(i, (bit, name)),
    decreases i,
{
    if i == 0 {
        assert(seq![(bit, name)] + t.drop_first() =~= t.update(0, (bit, name)));
    } else {
        let rest = t.drop_first();
        assert(rest[i - 1] == t[i]);
        assert(forall|k: int| 0 <= k < i - 1 ==> (#[trigger] rest[k]).0 != bit);
        lemma_props_upsert_found(rest, bit, name, i - 1);
        assert(seq![t[0]] + rest.update(i - 1, (bit, name)) =~= t.update(i, (bit, name)));
    }
}

/// When no entry has key `bit`, the upsert appends a fresh entry.
proof fn lemma_props_upsert_missing(t: Seq<(u32, Seq<char>)>, bit: u32, name: Seq<char>)
    requires
        forall|k: int| 0 <= k < t.len() ==> (#[trigger] t[k]).0 != bit,
    ensures
        props_upsert(t, bit, name) == t.push((bit, name)),
    decreases t.len(),
{
    if t.len() == 0 {
        assert(props_upsert(t, bit, name) =~= t.push((bit, name)));
    } else {
        let rest = t.drop_first();
        lemma_props_upsert_missing(rest, bit, name);
        assert(seq![t[0]] + rest.push((bit, name)) =~= t.push((bit, name)));
    }
}

pub struct Callgraph {
    /// Forward graph: function to callees. Node weights are the canonical
    /// (mangled) names; node indexes are the identifiers.
    graph: Store,
    /// Reverse graph: function to callers, same node and edge indexes,
    /// every edge mirrored. Node weights are unused.
    caller_graph: Store,
    /// Alternate (unmangled) names of each node, in registration order.
    alt_names: Vec<Vec<String>>,
    /// Stem to the identifiers registered under it, first registration
    /// first; keys are unique.
    stem_table: Vec<(String, Vec<usize>)>,
    /// Property bit to display name, defaults first; bits are unique.
    property_names: Vec<(u32, String)>,
    /// Root set, frozen once computed.
    roots: Option<Vec<usize>>,
    /// Sink set, frozen once computed.
    sinks: Option<Vec<usize>>,
    /// The synthetic `<root>` node, zero until the roots are computed.
    root: usize,
    /// The synthetic `<sink>` node, zero until the sinks are computed.
    sink: usize,
}

impl Callgraph {
    /// The canonical names, in identifier order.
    pub closed spec fn funcs(self) -> Seq<Seq<char>> {
        graph_names(self.graph)
    }

    /// The edges, in insertion order.
    pub closed spec fn edges(self) -> Seq<EdgeModel> {
        graph_edges(self.graph)
    }

    /// The alternate names of each node.
    pub closed spec fn alts(self) -> Seq<Seq<Seq<char>>> {
        self.alt_names.deep_view()
    }

    /// The name index: stem to identifiers.
    pub closed spec fn stems(self) -> Seq<(Seq<char>, Seq<usize>)> {
        self.stem_table@.map_values(|p: (String, Vec<usize>)| (p.0@, p.1@))
    }

    /// The property-name table: bit to display name.
    pub closed spec fn props(self) -> Seq<(u32, Seq<char>)> {
        self.property_names@.map_values(|p: (u32, String)| (p.0, p.1@))
    }

    /// The computed root set, if frozen already.
    pub closed spec fn root_set(self) -> Option<Seq<usize>> {
        match self.roots {
            Some(ref v) => Some(v@),
            None => None,
        }
    }

    /// The computed sink set, if frozen already.
    pub closed spec fn sink_set(self) -> Option<Seq<usize>> {
        match self.sinks {
            Some(ref v) => Some(v@),
            None => None,
        }
    }

    /// The synthetic root node (zero until the roots are computed).
    pub closed spec fn root_node(self) -> usize {
        self.root
    }

    /// The synthetic sink node (zero until the sinks are computed).
    pub closed spec fn sink_node(self) -> usize {
        self.sink
    }

    /// The node callee queries leave out: the synthetic sink, once one
    /// has been created; nothing before that.
    pub open spec fn sink_exclusion(self) -> Option<usize> {
        if self.sink_set() is Some {
            Some(self.sink_node())
        } else {
            None
        }
    }

    /// The node caller queries leave out: the synthetic root, once one
    /// has been created; nothing before that.
    pub open spec fn root_exclusion(self) -> Option<usize> {
        if self.root_set() is Some {
            Some(self.root_node())
        } else {
            None
        }
    }

    /// Every structural invariant of the store: the reverse graph mirrors
    /// the forward graph edge by edge, all endpoints are nodes, every edge
    /// property set is well formed, the parallel tables have one entry per
    /// node, the stem and property tables have unique keys, and the frozen
    /// root/sink sets hold only nodes.
    pub closed spec fn wf(self) -> bool {
        &&& 1 <= self.funcs().len() <= u32::MAX as usize
        &&& self.edges().len() <= u32::MAX as usize
        &&& graph_names(self.caller_graph).len() == self.funcs().len()
        &&& graph_edges(self.caller_graph).len() == self.edges().len()
        &&& forall|i: int|
            0 <= i < self.edges().len() ==> #[trigger] graph_edges(self.caller_graph)[i] == (
            self.edges()[i].1,
            self.edges()[i].0,
            self.edges()[i].2,
        )
        &&& forall|i: int|
            0 <= i < self.edges().len() ==> (#[trigger] self.edges()[i]).0 < self.funcs().len()
                && self.edges()[i].1 < self.funcs().len() && self.edges()[i].2.wf()
        &&& self.alts().len() == self.funcs().len()
        &&& stem_keys_distinct(self.stems())
        &&& stem_ids_bounded(self.stems(), self.funcs().len())
        &&& prop_bits_distinct(self.props())
        &&& self.root_node() < self.funcs().len()
        &&& self.sink_node() < self.funcs().len()
        &&& self.root_set() is None ==> self.root_node() == 0
        &&& self.sink_set() is None ==> self.sink_node() == 0
        &&& match self.root_set() {
            Some(rs) => forall|k: int| 0 <= k < rs.len() ==> (#[trigger] rs[k])
                < self.funcs().len(),
            None => true,
        }
        &&& match self.sink_set() {
            Some(ss) => forall|k: int| 0 <= k < ss.len() ==> (#[trigger] ss[k])
                < self.funcs().len(),
            None => true,
        }
    }

    /// Every edge of a well-formed graph carries a well-formed property
    /// set: its `all` mask is a subset of its `any` mask.
    pub proof fn lemma_edge_props_wf(self)
        requires
            self.wf(),
        ensures
            forall|i: int| 0 <= i < self.edges().len() ==> (#[trigger] self.edges()[i]).2.wf(),
    {
    }

    /// The bounds that well-formedness gives every consumer: table sizes
    /// agree, identifiers fit the index type, and every edge endpoint,
    /// stem entry and frozen root or sink is a node.
    pub proof fn lemma_wf_facts(self)
        requires
            self.wf(),
        ensures
            1 <= self.funcs().len() <= u32::MAX as usize,
            self.edges().len() <= u32::MAX as usize,
            self.alts().len() == self.funcs().len(),
            forall|i: int|
                0 <= i < self.edges().len() ==> (#[trigger] self.edges()[i]).0
                    < self.funcs().len() && self.edges()[i].1 < self.funcs().len()
                    && self.edges()[i].2.wf(),
            stem_keys_distinct(self.stems()),
            stem_ids_bounded(self.stems(), self.funcs().len()),
            prop_bits_distinct(self.props()),
            self.root_node() < self.funcs().len(),
            self.sink_node() < self.funcs().len(),
            self.root_set() is None ==> self.root_node() == 0,
            self.sink_set() is None ==> self.sink_node() == 0,
            match self.root_set() {
                Some(rs) => forall|k: int|
                    0 <= k < rs.len() ==> (#[trigger] rs[k]) < self.funcs().len(),
                None => true,
            },
            match self.sink_set() {
                Some(ss) => forall|k: int|
                    0 <= k < ss.len() ==> (#[trigger] ss[k]) < self.funcs().len(),
                None => true,
            },
    {
    }

    /// A fresh graph: the sentinel node zero and the built-in property
    /// names, nothing else.
    pub fn new() -> (cg: Callgraph)
        ensures
            cg.wf(),
            cg.funcs() == seq!["(dummy node zero)"@],
            cg.edges() == Seq::<EdgeModel>::empty(),
            cg.alts() == seq![Seq::<Seq<char>>::empty()],
            cg.stems() == Seq::<(Seq<char>, Seq<usize>)>::empty(),
            cg.props() == seq![
                (1u32, "GC_SUPPRESSED"@),
                (2u32, "CANSCRIPT_BOUNDED"@),
                (4u32, "DOM_ITERATING"@),
                (8u32, "NONRELEASING"@),
                (16u32, "REPLACED"@),
            ],
            cg.root_set() is None,
            cg.sink_set() is None,
            cg.root_node() == 0,
            cg.sink_node() == 0,
    {
        let mut graph = pg_new();
        let mut caller_graph = pg_new();
        pg_add_node(&mut graph, String::from_str("(dummy node zero)"));
        pg_add_node(&mut caller_graph, String::new());
        let mut alt_names: Vec<Vec<String>> = Vec::new();
        alt_names.push(Vec::new());
        let mut property_names: Vec<(u32, String)> = Vec::new();
        property_names.push((1, String::from_str("GC_SUPPRESSED")));
        property_names.push((2, String::from_str("CANSCRIPT_BOUNDED")));
        property_names.push((4, String::from_str("DOM_ITERATING")));
        property_names.push((8, String::from_str("NONRELEASING")));
        property_names.push((16, String::from_str("REPLACED")));
        let cg = Callgraph {
            graph,
            caller_graph,
            alt_names,
            stem_table: Vec::new(),
            property_names,
            roots: None,
            sinks: None,
            root: 0,
            sink: 0,
        };
        proof {
            assert(cg.funcs() =~= seq!["(dummy node zero)"@]);
            assert(cg.alts() =~~= seq![Seq::<Seq<char>>::empty()]);
            assert(cg.stems() =~= Seq::<(Seq<char>, Seq<usize>)>::empty());
            assert(cg.props() =~= seq![
                (1u32, "GC_SUPPRESSED"@),
                (2u32, "CANSCRIPT_BOUNDED"@),
                (4u32, "DOM_ITERATING"@),
                (8u32, "NONRELEASING"@),
                (16u32, "REPLACED"@),
            ]);
        }
        cg
    }

    /// The number of nodes, the sentinel included.
    pub fn node_count(&self) -> (n: usize)
        ensures
            n == self.funcs().len(),
    {
        pg_node_count(&self.graph)
    }

    /// Appends a new function node with the given canonical name and no
    /// alternate names yet; its identifier is its insertion order.
    pub fn add_function(&mut self, name: &str) -> (id: usize)
        requires
            old(self).wf(),
            old(self).funcs().len() < u32::MAX as usize,
        ensures
            final(self).wf(),
            id == old(self).funcs().len(),
            final(self).funcs() == old(self).funcs().push(name@),
            final(self).alts() == old(self).alts().push(Seq::<Seq<char>>::empty()),
            final(self).edges() == old(self).edges(),
            final(self).stems() == old(self).stems(),
            final(self).props() == old(self).props(),
            final(self).root_set() == old(self).root_set(),
            final(self).sink_set() == old(self).sink_set(),
            final(self).root_node() == old(self).root_node(),
            final(self).sink_node() == old(self).sink_node(),
    {
        let id = pg_add_node(&mut self.graph, name.to_owned());
        pg_add_node(&mut self.caller_graph, String::new());
        self.alt_names.push(Vec::new());
        proof {
            assert(final(self).alts() =~~= old(self).alts().push(Seq::<Seq<char>>::empty()));
        }
        id
    }

    /// Inserts the forward edge `src -> dst` and its mirror in the reverse
    /// graph, both carrying the given property set.
    pub fn add_edge(&mut self, src: usize, dst: usize, ps: PropertySet)
        requires
            old(self).wf(),
            src < old(self).funcs().len(),
            dst < old(self).funcs().len(),
            ps.wf(),
            old(self).edges().len() < u32::MAX as usize,
        ensures
            final(self).wf(),
            final(self).edges() == old(self).edges().push((src, dst, ps)),
            final(self).funcs() == old(self).funcs(),
            final(self).alts() == old(self).alts(),
            final(self).stems() == old(self).stems(),
            final(self).props() == old(self).props(),
            final(self).root_set() == old(self).root_set(),
            final(self).sink_set() == old(self).sink_set(),
            final(self).root_node() == old(self).root_node(),
            final(self).sink_node() == old(self).sink_node(),
    {
        pg_add_edge(&mut self.graph, src, dst, ps);
        pg_add_edge(&mut self.caller_graph, dst, src, ps);
    }

    /// Registers an additional display name for an existing node and
    /// indexes its stem.
    pub fn add_unmangled_name(&mut self, id: usize, unmangled: &str)
        requires
            old(self).wf(),
            id < old(self).funcs().len(),
        ensures
            final(self).wf(),
            final(self).alts() == old(self).alts().update(
                id as int,
                old(self).alts()[id as int].push(unmangled@),
            ),
            final(self).stems() == stems_add(old(self).stems(), stem_of(unmangled@), id),
            final(self).funcs() == old(self).funcs(),
            final(self).edges() == old(self).edges(),
            final(self).props() == old(self).props(),
            final(self).root_set() == old(self).root_set(),
            final(self).sink_set() == old(self).sink_set(),
            final(self).root_node() == old(self).root_node(),
            final(self).sink_node() == old(self).sink_node(),
    {
        let func_stem = crate::stems::stem(unmangled).to_owned();
        self.push_stem_entry(func_stem, id);
        let mut name_list = clone_strings(&self.alt_names[id]);
        name_list.push(unmangled.to_owned());
        self.alt_names.set(id, name_list);
        proof {
            assert(final(self).alts() =~~= old(self).alts().update(
                id as int,
                old(self).alts()[id as int].push(unmangled@),
            ));
        }
    }

    /// Appends `id` under `st` in the stem table, creating the entry when
    /// the stem is new.
    fn push_stem_entry(&mut self, st: String, id: usize)
        requires
            old(self).wf(),
            id < old(self).funcs().len(),
        ensures
            final(self).stems() == stems_add(old(self).stems(), st@, id),
            final(self).wf(),
            final(self).funcs() == old(self).funcs(),
            final(self).edges() == old(self).edges(),
            final(self).alts() == old(self).alts(),
            final(self).props() == old(self).props(),
            final(self).root_set() == old(self).root_set(),
            final(self).sink_set() == old(self).sink_set(),
            final(self).root_node() == old(self).root_node(),
            final(self).sink_node() == old(self).sink_node(),
            final(self).graph == old(self).graph,
            final(self).caller_graph == old(self).caller_graph,
    {
        let n = self.stem_table.len();
        let mut i: usize = 0;
        while i < n
            invariant
                n == self.stem_table.len(),
                i <= n,
                forall|k: int| 0 <= k < i ==> (#[trigger] self.stems()[k]).0 != st@,
                *self == *old(self),
                old(self).wf(),
                id < old(self).funcs().len(),
            decreases n - i,
        {
            if self.stem_table[i].0 == st {
                let key = self.stem_table[i].0.clone();
                let mut ids = copy_ids(&self.stem_table[i].1);
                ids.push(id);
                self.stem_table.set(i, (key, ids));
                proof {
                    lemma_stems_add_found(old(self).stems(), st@, id, i as int);
                    assert(final(self).stems() =~~= stems_add(old(self).stems(), st@, id));
                    let ns = final(self).stems();
                    let os = old(self).stems();
                    assert(ns == os.update(i as int, (os[i as int].0, os[i as int].1.push(id))));
                    assert forall|a: int, b: int| 0 <= a < b < ns.len() implies (#[trigger] ns[a]).0
                        != (#[trigger] ns[b]).0 by {
                        assert(ns[a].0 == os[a].0);
                        assert(ns[b].0 == os[b].0);
                    }
                    assert forall|a: int, k: int|
                        0 <= a < ns.len() && 0 <= k < ns[a].1.len() implies #[trigger] ns[a].1[k]
                        < final(self).funcs().len() by {
                        if a == i as int {
                            if k < os[a].1.len() {
                                assert(os[a].1[k] < old(self).funcs().len());
                            } else {
                                assert(ns[a].1[k] == id);
                            }
                        } else {
                            assert(ns[a] == os[a]);
                        }
                    }
                }
                return ;
            }
            i += 1;
        }
        self.stem_table.push((st, {
            let mut v = Vec::new();
            v.push(id);
            v
        }));
        proof {
            lemma_stems_add_missing(old(self).stems(), st@, id);
            assert(final(self).stems() =~~= stems_add(old(self).stems(), st@, id));
        }
    }
}

/// The edges mirrored: source and target of each edge swapped, the
/// property set kept. This is what the reverse graph stores.
pub open spec fn mirror_edges(edges: Seq<EdgeModel>) -> Seq<EdgeModel> {
    edges.map_values(|e: EdgeModel| (e.1, e.0, e.2))
}

/// The targets of the listed edges, those the exclusion names left out,
/// in list order.
pub open spec fn sel_targets(edges: Seq<EdgeModel>, ids: Seq<usize>, excl: Option<usize>) -> Seq<
    usize,
>
    decreases ids.len(),
{
    if ids.len() == 0 {
        Seq::empty()
    } else {
        let rest = sel_targets(edges, ids.drop_last(), excl);
        if excl != Some(edges[ids.last() as int].1) {
            rest.push(edges[ids.last() as int].1)
        } else {
            rest
        }
    }
}

/// The listed edge ids with those targeting the excluded node left out,
/// in list order.
pub open spec fn sel_edges(edges: Seq<EdgeModel>, ids: Seq<usize>, excl: Option<usize>) -> Seq<
    usize,
>
    decreases ids.len(),
{
    if ids.len() == 0 {
        Seq::empty()
    } else {
        let rest = sel_edges(edges, ids.drop_last(), excl);
        if excl != Some(edges[ids.last() as int].1) {
            rest.push(ids.last())
        } else {
            rest
        }
    }
}

impl Callgraph {
    /// The forward graph store.
    pub(crate) fn graph_ref(&self) -> (g: &Store)
        ensures
            graph_names(*g) == self.funcs(),
            graph_edges(*g) == self.edges(),
    {
        &self.graph
    }

    /// The alternate names of one node.
    pub(crate) fn alt_names_ref(&self, idx: usize) -> (v: &Vec<String>)
        requires
            self.wf(),
            idx < self.funcs().len(),
        ensures
            v.deep_view() == self.alts()[idx as int],
    {
        &self.alt_names[idx]
    }

    /// The reverse graph store; its edges mirror the forward edges.
    pub(crate) fn caller_graph_ref(&self) -> (g: &Store)
        requires
            self.wf(),
        ensures
            graph_names(*g).len() == self.funcs().len(),
            graph_edges(*g) == mirror_edges(self.edges()),
    {
        proof {
            assert(graph_edges(self.caller_graph) =~= mirror_edges(self.edges()));
        }
        &self.caller_graph
    }

    /// The frozen root set, when one has been computed.
    pub(crate) fn root_list_ref(&self) -> (r: Option<&Vec<usize>>)
        ensures
            match r {
                Some(v) => self.root_set() == Some(v@),
                None => self.root_set() is None,
            },
    {
        match &self.roots {
            Some(v) => Some(v),
            None => None,
        }
    }

    /// The frozen sink set, when one has been computed.
    pub(crate) fn sink_list_ref(&self) -> (r: Option<&Vec<usize>>)
        ensures
            match r {
                Some(v) => self.sink_set() == Some(v@),
                None => self.sink_set() is None,
            },
    {
        match &self.sinks {
            Some(v) => Some(v),
            None => None,
        }
    }

    /// Freezes the root set: connects the synthetic root node to every
    /// member and records the set.
    pub(crate) fn freeze_roots(&mut self, members: &Vec<usize>, root_idx: usize)
        requires
            old(self).wf(),
            old(self).root_set() is None,
            root_idx < old(self).funcs().len(),
            forall|k: int|
                0 <= k < members@.len() ==> (#[trigger] members@[k]) < old(self).funcs().len(),
            old(self).edges().len() + members@.len() <= u32::MAX as usize,
        ensures
            final(self).wf(),
            final(self).root_set() == Some(members@),
            final(self).root_node() == root_idx,
            final(self).funcs() == old(self).funcs(),
            final(self).alts() == old(self).alts(),
            final(self).stems() == old(self).stems(),
            final(self).props() == old(self).props(),
            final(self).sink_set() == old(self).sink_set(),
            final(self).sink_node() == old(self).sink_node(),
            final(self).edges() == old(self).edges() + members@.map_values(
                |v: usize| (root_idx, v, PropertySet { all: 0, any: 0 }),
            ),
    {
        let ghost target = old(self).edges() + members@.map_values(
            |v: usize| (root_idx, v, PropertySet { all: 0, any: 0 }),
        );
        let empty_ps = PropertySet::empty();
        let m = members.len();
        let mut k: usize = 0;
        while k < m
            invariant
                self.wf(),
                old(self).wf(),
                empty_ps == (PropertySet { all: 0u32, any: 0u32 }),
                empty_ps.wf(),
                m == members@.len(),
                k <= m,
                root_idx < old(self).funcs().len(),
                forall|t: int|
                    0 <= t < members@.len() ==> (#[trigger] members@[t]) < old(
                        self,
                    ).funcs().len(),
                old(self).edges().len() + members@.len() <= u32::MAX as usize,
                self.funcs() == old(self).funcs(),
                self.alts() == old(self).alts(),
                self.stems() == old(self).stems(),
                self.props() == old(self).props(),
                self.root_set() == old(self).root_set(),
                self.root_node() == old(self).root_node(),
                self.sink_set() == old(self).sink_set(),
                self.sink_node() == old(self).sink_node(),
                self.edges() == old(self).edges() + members@.subrange(0, k as int).map_values(
                    |v: usize| (root_idx, v, PropertySet { all: 0, any: 0 }),
                ),
            decreases m - k,
        {
            self.add_edge(root_idx, members[k], empty_ps);
            k += 1;
            proof {
                let pre = members@.subrange(0, k - 1);
                let cur = members@.subrange(0, k as int);
                assert(cur.drop_last() =~= pre);
                assert(self.edges() =~= old(self).edges() + cur.map_values(
                    |v: usize| (root_idx, v, PropertySet { all: 0, any: 0 }),
                ));
            }
        }
        proof {
            assert(members@.subrange(0, m as int) =~= members@);
        }
        self.roots = Some(copy_ids(members));
        self.root = root_idx;
    }

    /// Freezes the sink set: connects every member to the synthetic sink
    /// node and records the set.
    pub(crate) fn freeze_sinks(&mut self, members: &Vec<usize>, sink_idx: usize)
        requires
            old(self).wf(),
            old(self).sink_set() is None,
            sink_idx < old(self).funcs().len(),
            forall|k: int|
                0 <= k < members@.len() ==> (#[trigger] members@[k]) < old(self).funcs().len(),
            old(self).edges().len() + members@.len() <= u32::MAX as usize,
        ensures
            final(self).wf(),
            final(self).sink_set() == Some(members@),
            final(self).sink_node() == sink_idx,
            final(self).funcs() == old(self).funcs(),
            final(self).alts() == old(self).alts(),
            final(self).stems() == old(self).stems(),
            final(self).props() == old(self).props(),
            final(self).root_set() == old(self).root_set(),
            final(self).root_node() == old(self).root_node(),
            final(self).edges() == old(self).edges() + members@.map_values(
                |v: usize| (v, sink_idx, PropertySet { all: 0, any: 0 }),
            ),
    {
        let empty_ps = PropertySet::empty();
        let m = members.len();
        let mut k: usize = 0;
        while k < m
            invariant
                self.wf(),
                old(self).wf(),
                empty_ps == (PropertySet { all: 0u32, any: 0u32 }),
                empty_ps.wf(),
                m == members@.len(),
                k <= m,
                sink_idx < old(self).funcs().len(),
                forall|t: int|
                    0 <= t < members@.len() ==> (#[trigger] members@[t]) < old(
                        self,
                    ).funcs().len(),
                old(self).edges().len() + members@.len() <= u32::MAX as usize,
                self.funcs() == old(self).funcs(),
                self.alts() == old(self).alts(),
                self.stems() == old(self).stems(),
                self.props() == old(self).props(),
                self.root_set() == old(self).root_set(),
                self.root_node() == old(self).root_node(),
                self.sink_set() == old(self).sink_set(),
                self.sink_node() == old(self).sink_node(),
                self.edges() == old(self).edges() + members@.subrange(0, k as int).map_values(
                    |v: usize| (v, sink_idx, PropertySet { all: 0, any: 0 }),
                ),
            decreases m - k,
        {
            self.add_edge(members[k], sink_idx, empty_ps);
            k += 1;
            proof {
                let pre = members@.subrange(0, k - 1);
                let cur = members@.subrange(0, k as int);
                assert(cur.drop_last() =~= pre);
                assert(self.edges() =~= old(self).edges() + cur.map_values(
                    |v: usize| (v, sink_idx, PropertySet { all: 0, any: 0 }),
                ));
            }
        }
        proof {
            assert(members@.subrange(0, m as int) =~= members@);
        }
        self.sinks = Some(copy_ids(members));
        self.sink = sink_idx;
    }

    /// The number of entries of the stem table.
    pub fn stem_count(&self) -> (n: usize)
        ensures
            n == self.stems().len(),
    {
        self.stem_table.len()
    }

    /// The key of one stem-table entry.
    pub fn stem_key(&self, i: usize) -> (r: &String)
        requires
            i < self.stems().len(),
        ensures
            r@ == self.stems()[i as int].0,
    {
        &self.stem_table[i].0
    }

    /// The identifiers of one stem-table entry.
    pub fn stem_ids(&self, i: usize) -> (r: &Vec<usize>)
        requires
            i < self.stems().len(),
        ensures
            r@ == self.stems()[i as int].1,
    {
        &self.stem_table[i].1
    }

    /// Gives `bit` the display name `name` in the property table,
    /// renaming the bit when it is already named.
    pub fn upsert_property(&mut self, bit: u32, name: String)
        requires
            old(self).wf(),
        ensures
            final(self).wf(),
            final(self).props() == props_upsert(old(self).props(), bit, name@),
            final(self).funcs() == old(self).funcs(),
            final(self).edges() == old(self).edges(),
            final(self).alts() == old(self).alts(),
            final(self).stems() == old(self).stems(),
            final(self).root_set() == old(self).root_set(),
            final(self).sink_set() == old(self).sink_set(),
            final(self).root_node() == old(self).root_node(),
            final(self).sink_node() == old(self).sink_node(),
    {
        let n = self.property_names.len();
        let mut i: usize = 0;
        while i < n
            invariant
                n == self.property_names.len(),
                i <= n,
                forall|k: int| 0 <= k < i ==> (#[trigger] self.props()[k]).0 != bit,
                *self == *old(self),
                old(self).wf(),
            decreases n - i,
        {
            if self.property_names[i].0 == bit {
                self.property_names.set(i, (bit, name));
                proof {
                    lemma_props_upsert_found(old(self).props(), bit, name@, i as int);
                    assert(final(self).props() =~~= props_upsert(old(self).props(), bit, name@));
                    let ns = final(self).props();
                    let os = old(self).props();
                    assert(ns == os.update(i as int, (bit, name@)));
                    assert forall|a: int, b: int| 0 <= a < b < ns.len() implies (
                    #[trigger] ns[a]).0 != (#[trigger] ns[b]).0 by {
                        assert(ns[a].0 == os[a].0);
                        assert(ns[b].0 == os[b].0);
                    }
                }
                return ;
            }
            i += 1;
        }
        self.property_names.push((bit, name));
        proof {
            lemma_props_upsert_missing(old(self).props(), bit, name@);
            assert(final(self).props() =~~= props_upsert(old(self).props(), bit, name@));
        }
    }

    /// The number of entries of the property-name table.
    pub fn prop_count(&self) -> (n: usize)
        ensures
            n == self.props().len(),
    {
        self.property_names.len()
    }

    /// One entry of the property-name table: its bit and its display
    /// name.
    pub fn prop_entry(&self, i: usize) -> (r: (u32, String))
        requires
            i < self.props().len(),
        ensures
            r.0 == self.props()[i as int].0,
            r.1@ == self.props()[i as int].1,
    {
        (self.property_names[i].0, self.property_names[i].1.clone())
    }

    /// The number of edges.
    pub fn edge_count(&self) -> (n: usize)
        ensures
            n == self.edges().len(),
    {
        crate::pgraph::pg_edge_count(&self.graph)
    }

    /// The source and target of an edge.
    pub fn edge_endpoints(&self, e: usize) -> (r: (usize, usize))
        requires
            e < self.edges().len(),
        ensures
            r.0 == self.edges()[e as int].0,
            r.1 == self.edges()[e as int].1,
    {
        pg_edge_endpoints(&self.graph, e)
    }

    /// The property set of an edge.
    pub fn edge_props(&self, e: usize) -> (r: PropertySet)
        requires
            e < self.edges().len(),
        ensures
            r == self.edges()[e as int].2,
    {
        pg_edge_props(&self.graph, e)
    }

    /// The callees of `idx`: the target of every outgoing edge, the
    /// synthetic sink node excluded once one exists, most recently added
    /// edge first; empty when `idx` is no node.
    pub fn callees(&self, idx: usize) -> (r: Vec<usize>)
        requires
            self.wf(),
        ensures
            r@ == sel_targets(
                self.edges(),
                edge_ids_from(self.edges(), idx),
                self.sink_exclusion(),
            ),
            forall|k: int| 0 <= k < r@.len() ==> #[trigger] r@[k] < self.funcs().len(),
    {
        if idx >= self.node_count() {
            proof {
                self.lemma_wf_facts();
                crate::pgraph::lemma_edge_ids_from_absent(self.edges(), idx);
            }
            let r: Vec<usize> = Vec::new();
            return r;
        }
        let excl = self.current_sink_exclusion();
        let ids = pg_edges_from(&self.graph, idx);
        proof {
            lemma_edge_ids_from(self.edges(), idx);
        }
        let r = self.select_targets(&ids, excl);
        proof {
            lemma_sel_targets_bounded(self.edges(), ids@, excl, self.funcs().len());
        }
        r
    }

    /// The outgoing edges of `idx`, those reaching the synthetic sink
    /// node excluded once one exists, most recently added first; empty
    /// when `idx` is no node.
    pub fn callee_edges(&self, idx: usize) -> (r: Vec<usize>)
        requires
            self.wf(),
        ensures
            r@ == sel_edges(
                self.edges(),
                edge_ids_from(self.edges(), idx),
                self.sink_exclusion(),
            ),
    {
        if idx >= self.node_count() {
            proof {
                self.lemma_wf_facts();
                crate::pgraph::lemma_edge_ids_from_absent(self.edges(), idx);
            }
            let r: Vec<usize> = Vec::new();
            return r;
        }
        let excl = self.current_sink_exclusion();
        let ids = pg_edges_from(&self.graph, idx);
        proof {
            lemma_edge_ids_from(self.edges(), idx);
        }
        self.select_edges(&ids, excl)
    }

    /// The callers of `idx`: the source of every incoming edge, the
    /// synthetic root node excluded once one exists, most recently added
    /// edge first; empty when `idx` is no node.
    pub fn callers(&self, idx: usize) -> (r: Vec<usize>)
        requires
            self.wf(),
        ensures
            r@ == sel_targets(
                mirror_edges(self.edges()),
                edge_ids_from(mirror_edges(self.edges()), idx),
                self.root_exclusion(),
            ),
            forall|k: int| 0 <= k < r@.len() ==> #[trigger] r@[k] < self.funcs().len(),
    {
        if idx >= self.node_count() {
            proof {
                self.lemma_wf_facts();
                assert forall|e: int|
                    0 <= e < mirror_edges(self.edges()).len() implies (
                #[trigger] mirror_edges(self.edges())[e]).0 != idx by {
                    assert(mirror_edges(self.edges())[e].0 == self.edges()[e].1);
                }
                crate::pgraph::lemma_edge_ids_from_absent(mirror_edges(self.edges()), idx);
            }
            let r: Vec<usize> = Vec::new();
            return r;
        }
        let excl = self.current_root_exclusion();
        proof {
            assert(graph_edges(self.caller_graph) =~= mirror_edges(self.edges()));
        }
        let ids = pg_edges_from(&self.caller_graph, idx);
        proof {
            lemma_edge_ids_from(mirror_edges(self.edges()), idx);
        }
        let r = self.select_rev_targets(&ids, excl);
        proof {
            lemma_sel_targets_bounded(
                mirror_edges(self.edges()),
                ids@,
                excl,
                self.funcs().len(),
            );
        }
        r
    }

    /// The incoming edges of `idx` (by their shared forward/reverse edge
    /// index), those from the synthetic root node excluded once one
    /// exists, most recently added first; empty when `idx` is no node.
    pub fn caller_edges(&self, idx: usize) -> (r: Vec<usize>)
        requires
            self.wf(),
        ensures
            r@ == sel_edges(
                mirror_edges(self.edges()),
                edge_ids_from(mirror_edges(self.edges()), idx),
                self.root_exclusion(),
            ),
    {
        if idx >= self.node_count() {
            proof {
                self.lemma_wf_facts();
                assert forall|e: int|
                    0 <= e < mirror_edges(self.edges()).len() implies (
                #[trigger] mirror_edges(self.edges())[e]).0 != idx by {
                    assert(mirror_edges(self.edges())[e].0 == self.edges()[e].1);
                }
                crate::pgraph::lemma_edge_ids_from_absent(mirror_edges(self.edges()), idx);
            }
            let r: Vec<usize> = Vec::new();
            return r;
        }
        let excl = self.current_root_exclusion();
        proof {
            assert(graph_edges(self.caller_graph) =~= mirror_edges(self.edges()));
        }
        let ids = pg_edges_from(&self.caller_graph, idx);
        proof {
            lemma_edge_ids_from(mirror_edges(self.edges()), idx);
        }
        let n = ids.len();
        let mut r: Vec<usize> = Vec::new();
        let ghost redges = mirror_edges(self.edges());
        let mut k: usize = 0;
        while k < n
            invariant
                self.wf(),
                redges == mirror_edges(self.edges()),
                redges == graph_edges(self.caller_graph),
                n == ids@.len(),
                k <= n,
                forall|t: int|
                    0 <= t < ids@.len() ==> (#[trigger] ids@[t]) < redges.len()
                        && redges[ids@[t] as int].0 == idx,
                r@ == sel_edges(redges, ids@.subrange(0, k as int), excl),
            decreases n - k,
        {
            let e = ids[k];
            let (_, tgt) = pg_edge_endpoints(&self.caller_graph, e);
            let keep = match excl {
                Some(x) => tgt != x,
                None => true,
            };
            if keep {
                r.push(e);
            }
            k += 1;
            proof {
                let pre = ids@.subrange(0, k - 1);
                let cur = ids@.subrange(0, k as int);
                assert(cur.drop_last() =~= pre);
                assert(cur.last() == ids@[k - 1]);
            }
        }
        proof {
            assert(ids@.subrange(0, n as int) =~= ids@);
        }
        r
    }

    /// The exclusion callee queries apply right now.
    fn current_sink_exclusion(&self) -> (r: Option<usize>)
        ensures
            r == self.sink_exclusion(),
    {
        match self.sink_list_ref() {
            Some(_) => Some(self.sink),
            None => None,
        }
    }

    /// The exclusion caller queries apply right now.
    fn current_root_exclusion(&self) -> (r: Option<usize>)
        ensures
            r == self.root_exclusion(),
    {
        match self.root_list_ref() {
            Some(_) => Some(self.root),
            None => None,
        }
    }

    /// The targets of the listed forward edges, the exclusion left out.
    fn select_targets(&self, ids: &Vec<usize>, excl: Option<usize>) -> (r: Vec<usize>)
        requires
            self.wf(),
            forall|t: int|
                0 <= t < ids@.len() ==> (#[trigger] ids@[t]) < self.edges().len(),
        ensures
            r@ == sel_targets(self.edges(), ids@, excl),
    {
        let n = ids.len();
        let mut r: Vec<usize> = Vec::new();
        let mut k: usize = 0;
        while k < n
            invariant
                self.wf(),
                n == ids@.len(),
                k <= n,
                forall|t: int|
                    0 <= t < ids@.len() ==> (#[trigger] ids@[t]) < self.edges().len(),
                r@ == sel_targets(self.edges(), ids@.subrange(0, k as int), excl),
            decreases n - k,
        {
            let e = ids[k];
            let (_, tgt) = pg_edge_endpoints(&self.graph, e);
            let keep = match excl {
                Some(x) => tgt != x,
                None => true,
            };
            if keep {
                r.push(tgt);
            }
            k += 1;
            proof {
                let pre = ids@.subrange(0, k - 1);
                let cur = ids@.subrange(0, k as int);
                assert(cur.drop_last() =~= pre);
                assert(cur.last() == ids@[k - 1]);
            }
        }
        proof {
            assert(ids@.subrange(0, n as int) =~= ids@);
        }
        r
    }

    /// The targets of the listed reverse edges, the exclusion left out.
    fn select_rev_targets(&self, ids: &Vec<usize>, excl: Option<usize>) -> (r: Vec<usize>)
        requires
            self.wf(),
            forall|t: int|
                0 <= t < ids@.len() ==> (#[trigger] ids@[t]) < self.edges().len(),
        ensures
            r@ == sel_targets(mirror_edges(self.edges()), ids@, excl),
    {
        proof {
            assert(graph_edges(self.caller_graph) =~= mirror_edges(self.edges()));
        }
        let n = ids.len();
        let mut r: Vec<usize> = Vec::new();
        let ghost redges = mirror_edges(self.edges());
        let mut k: usize = 0;
        while k < n
            invariant
                self.wf(),
                redges == mirror_edges(self.edges()),
                redges == graph_edges(self.caller_graph),
                n == ids@.len(),
                k <= n,
                forall|t: int|
                    0 <= t < ids@.len() ==> (#[trigger] ids@[t]) < redges.len(),
                r@ == sel_targets(redges, ids@.subrange(0, k as int), excl),
            decreases n - k,
        {
            let e = ids[k];
            let (_, tgt) = pg_edge_endpoints(&self.caller_graph, e);
            let keep = match excl {
                Some(x) => tgt != x,
                None => true,
            };
            if keep {
                r.push(tgt);
            }
            k += 1;
            proof {
                let pre = ids@.subrange(0, k - 1);
                let cur = ids@.subrange(0, k as int);
                assert(cur.drop_last() =~= pre);
                assert(cur.last() == ids@[k - 1]);
            }
        }
        proof {
            assert(ids@.subrange(0, n as int) =~= ids@);
        }
        r
    }

    /// The listed forward edges with those targeting the excluded node
    /// left out.
    fn select_edges(&self, ids: &Vec<usize>, excl: Option<usize>) -> (r: Vec<usize>)
        requires
            self.wf(),
            forall|t: int|
                0 <= t < ids@.len() ==> (#[trigger] ids@[t]) < self.edges().len(),
        ensures
            r@ == sel_edges(self.edges(), ids@, excl),
    {
        let n = ids.len();
        let mut r: Vec<usize> = Vec::new();
        let mut k: usize = 0;
        while k < n
            invariant
                self.wf(),
                n == ids@.len(),
                k <= n,
                forall|t: int|
                    0 <= t < ids@.len() ==> (#[trigger] ids@[t]) < self.edges().len(),
                r@ == sel_edges(self.edges(), ids@.subrange(0, k as int), excl),
            decreases n - k,
        {
            let e = ids[k];
            let (_, tgt) = pg_edge_endpoints(&self.graph, e);
            let keep = match excl {
                Some(x) => tgt != x,
                None => true,
            };
            if keep {
                r.push(e);
            }
            k += 1;
            proof {
                let pre = ids@.subrange(0, k - 1);
                let cur = ids@.subrange(0, k as int);
                assert(cur.drop_last() =~= pre);
                assert(cur.last() == ids@[k - 1]);
            }
        }
        proof {
            assert(ids@.subrange(0, n as int) =~= ids@);
        }
        r
    }
}

/// Every selected target is a target of a listed edge, so a node.
proof fn lemma_sel_targets_bounded(
    edges: Seq<EdgeModel>,
    ids: Seq<usize>,
    excl: Option<usize>,
    n: nat,
)
    requires
        forall|t: int| 0 <= t < ids.len() ==> (#[trigger] ids[t]) < edges.len(),
        forall|i: int| 0 <= i < edges.len() ==> (#[trigger] edges[i]).1 < n,
    ensures
        forall|k: int|
            0 <= k < sel_targets(edges, ids, excl).len() ==> #[trigger] sel_targets(
                edges,
                ids,
                excl,
            )[k] < n,
    decreases ids.len(),
{
    if ids.len() > 0 {
        assert(forall|t: int|
            0 <= t < ids.len() - 1 ==> ids.drop_last()[t] == #[trigger] ids[t]);
        lemma_sel_targets_bounded(edges, ids.drop_last(), excl, n);
        let rest = sel_targets(edges, ids.drop_last(), excl);
        let e = ids.last() as int;
        assert(ids[ids.len() - 1] < edges.len());
        if excl != Some(edges[e].1) {
            assert(sel_targets(edges, ids, excl) == rest.push(edges[e].1));
            assert forall|k: int| 0 <= k < sel_targets(edges, ids, excl).len()
                implies #[trigger] sel_targets(edges, ids, excl)[k] < n by {
                if k < rest.len() {
                    assert(sel_targets(edges, ids, excl)[k] == rest[k]);
                } else {
                    assert(sel_targets(edges, ids, excl)[k] == edges[e].1);
                }
            }
        } else {
            assert(sel_targets(edges, ids, excl) == rest);
        }
    }
}

/// A fresh vector holding the same identifiers.
pub(crate) fn copy_ids(v: &Vec<usize>) -> (r: Vec<usize>)
    ensures
        r@ == v@,
{
    let mut r: Vec<usize> = Vec::new();
    let n = v.len();
    let mut i: usize = 0;
    while i < n
        invariant
            n == v@.len(),
            i <= n,
            r@ == v@.subrange(0, i as int),
        decreases n - i,
    {
        r.push(v[i]);
        i += 1;
        assert(r@ =~= v@.subrange(0, i as int));
    }
    assert(r@ =~= v@);
    r
}

/// A fresh vector holding equal strings.
fn clone_strings(v: &Vec<String>) -> (r: Vec<String>)
    ensures
        r@ == v@,
{
    let mut r: Vec<String> = Vec::new();
    let n = v.len();
    let mut i: usize = 0;
    while i < n
        invariant
            n == v@.len(),
            i <= n,
            r@ == v@.subrange(0, i as int),
        decreases n - i,
    {
        r.push(v[i].clone());
        i += 1;
        assert(r@ =~= v@.subrange(0, i as int));
    }
    assert(r@ =~= v@);
    r
}

/// When `st` is the key of entry `i` (and of no earlier entry), adding
/// under `st` appends the id to entry `i` and leaves the rest unchanged.
proof fn lemma_stems_add_found(table: Seq<(Seq<char>, Seq<usize>)>, st: Seq<char>, id: usize, i: int)
    requires
        0 <= i < table.len(),
        table[i].0 == st,
        forall|k: int| 0 <= k < i ==> (#[trigger] table[k]).0 != st,
    ensures
        stems_add(table, st, id) == table.update(i, (table[i].0, table[i].1.push(id))),
    decreases i,
{
    if i == 0 {
        assert(stems_add(table, st, id) == seq![(table[0].0, table[0].1.push(id))]
            + table.drop_first());
        assert(seq![(table[0].0, table[0].1.push(id))] + table.drop_first() =~= table.update(
            0,
            (table[0].0, table[0].1.push(id)),
        ));
    } else {
        let rest = table.drop_first();
        assert(rest[i - 1] == table[i]);
        assert(forall|k: int| 0 <= k < i - 1 ==> (#[trigger] rest[k]).0 != st);
        lemma_stems_add_found(rest, st, id, i - 1);
        assert(stems_add(table, st, id) == seq![table[0]] + stems_add(rest, st, id));
        assert(seq![table[0]] + rest.update(i - 1, (rest[i - 1].0, rest[i - 1].1.push(id)))
            =~= table.update(i, (table[i].0, table[i].1.push(id))));
    }
}

/// When no entry has key `st`, adding under `st` appends a fresh entry.
proof fn lemma_stems_add_missing(table: Seq<(Seq<char>, Seq<usize>)>, st: Seq<char>, id: usize)
    requires
        forall|k: int| 0 <= k < table.len() ==> (#[trigger] table[k]).0 != st,
    ensures
        stems_add(table, st, id) == table.push((st, seq![id])),
    decreases table.len(),
{
    if table.len() == 0 {
        assert(stems_add(table, st, id) =~= table.push((st, seq![id])));
    } else {
        let rest = table.drop_first();
        lemma_stems_add_missing(rest, st, id);
        assert(stems_add(table, st, id) == seq![table[0]] + rest.push((st, seq![id])));
        assert(seq![table[0]] + rest.push((st, seq![id])) =~= table.push((st, seq![id])));
    }
}

} // verus!
