//! Rendering nodes, edges and property sets as text: a node as its
//! canonical name alone (brief), as `#id = name` (normal), or with every
//! alternate name on its own indented line (verbose); an edge as its
//! target plus a bracketed account of its property set; a property mask as
//! the comma-joined names of its bits.

use vstd::prelude::*;

use crate::callgraph::Callgraph;
use crate::callgraph::DescriptionBrevity;
use crate::pgraph::pg_node_name;
use crate::props::PropertySet;
use crate::text::append_chars;
use crate::text::chars_to_string;
use crate::text::dec_repr;
use crate::text::str_to_chars;
use crate::text::u32_to_chars;

verus! {

/// The `#id = ` prefix of a non-brief description.
pub open spec fn header_chars(id: nat) -> Seq<char> {
    seq!['#'] + dec_repr(id) + seq![' ', '=', ' ']
}

/// One indented line per alternate name, appended in registration order.
pub open spec fn verbose_alts(alts: Seq<Seq<char>>) -> Seq<char>
    decreases alts.len(),
{
    if alts.len() == 0 {
        Seq::empty()
    } else {
        verbose_alts(alts.drop_last()) + seq!['\n', ' ', ' '] + alts.last()
    }
}

/// What a node description shows, given its canonical name, its alternate
/// names and its identifier.
pub open spec fn describe_spec(
    name: Seq<char>,
    alts: Seq<Seq<char>>,
    id: nat,
    brevity: DescriptionBrevity,
) -> Seq<char> {
    match brevity {
        DescriptionBrevity::Brief => name,
        DescriptionBrevity::Normal => header_chars(id) + if alts.len() == 0 {
            name
        } else {
            alts[0]
        },
        DescriptionBrevity::Verbose => header_chars(id) + name + verbose_alts(alts),
    }
}

/// The names of the table entries whose bit is in `mask`, each followed by
/// a comma, in table order.
pub open spec fn props_desc_parts(table: Seq<(u32, Seq<char>)>, mask: u32) -> Seq<char>
    decreases table.len(),
{
    if table.len() == 0 {
        Seq::empty()
    } else {
        props_desc_parts(table.drop_last(), mask) + if table.last().0 & mask != 0 {
            table.last().1 + seq![',']
        } else {
            Seq::empty()
        }
    }
}

/// The comma-joined names of the bits of `mask`: the parts with the
/// trailing comma removed.
pub open spec fn props_desc(table: Seq<(u32, Seq<char>)>, mask: u32) -> Seq<char> {
    let p = props_desc_parts(table, mask);
    if p.len() > 0 {
        p.drop_last()
    } else {
        p
    }
}

/// The first table entry named `q`, scanning in table order.
pub open spec fn prop_lookup(table: Seq<(u32, Seq<char>)>, q: Seq<char>) -> Option<u32>
    decreases table.len(),
{
    if table.len() == 0 {
        None
    } else if table[0].1 == q {
        Some(table[0].0)
    } else {
        prop_lookup(table.drop_first(), q)
    }
}

/// What follows an edge's target in its description: nothing for an empty
/// `any` mask, one bracketed mask when every property guaranteed somewhere
/// is guaranteed everywhere, and the `any`/`all` pair otherwise.
pub open spec fn edge_suffix(ps: PropertySet, table: Seq<(u32, Seq<char>)>) -> Seq<char> {
    if ps.any == 0 {
        Seq::empty()
    } else if ps.any == ps.all {
        seq![' ', '['] + props_desc(table, ps.any) + seq![']']
    } else {
        seq![' ', '['] + props_desc(table, ps.any) + seq![':'] + props_desc(table, ps.all)
            + seq![']']
    }
}

/// Scanning past a prefix that does not hold `q` does not change the
/// lookup result.
proof fn lemma_prop_lookup_skip(table: Seq<(u32, Seq<char>)>, q: Seq<char>, i: int)
    requires
        0 <= i <= table.len(),
        forall|k: int| 0 <= k < i ==> (#[trigger] table[k]).1 != q,
    ensures
        prop_lookup(table, q) == prop_lookup(table.skip(i), q),
    decreases i,
{
    if i > 0 {
        assert(table[0].1 != q);
        let rest = table.drop_first();
        assert(forall|k: int| 0 <= k < i - 1 ==> (#[trigger] rest[k]).1 != q);
        lemma_prop_lookup_skip(rest, q, i - 1);
        assert(rest.skip(i - 1) =~= table.skip(i));
    } else {
        assert(table.skip(0) =~= table);
    }
}

impl Callgraph {
    /// The node's description, as characters.
    fn describe_chars(&self, idx: usize, brevity: DescriptionBrevity) -> (v: Vec<char>)
        requires
            self.wf(),
            idx < self.funcs().len(),
        ensures
            v@ == describe_spec(
                self.funcs()[idx as int],
                self.alts()[idx as int],
                idx as nat,
                brevity,
            ),
    {
        proof {
            self.lemma_wf_facts();
        }
        let canonical = self.canonical_name(idx);
        match brevity {
            DescriptionBrevity::Brief => str_to_chars(canonical.as_str()),
            DescriptionBrevity::Normal => {
                let mut v = self.header(idx);
                let shown = if self.alt_count(idx) == 0 {
                    str_to_chars(canonical.as_str())
                } else {
                    str_to_chars(self.alt_name(idx, 0).as_str())
                };
                append_chars(&mut v, &shown);
                v
            },
            DescriptionBrevity::Verbose => {
                let mut v = self.header(idx);
                append_chars(&mut v, &str_to_chars(canonical.as_str()));
                let n = self.alt_count(idx);
                let ghost alts = self.alts()[idx as int];
                let mut k: usize = 0;
                while k < n
                    invariant
                        self.wf(),
                        idx < self.funcs().len(),
                        n == alts.len(),
                        alts == self.alts()[idx as int],
                        k <= n,
                        v@ == header_chars(idx as nat) + self.funcs()[idx as int] + verbose_alts(
                            alts.subrange(0, k as int),
                        ),
                    decreases n - k,
                {
                    proof {
                        self.lemma_wf_facts();
                    }
                    v.push('\n');
                    v.push(' ');
                    v.push(' ');
                    let alt = self.alt_name(idx, k);
                    append_chars(&mut v, &str_to_chars(alt.as_str()));
                    k += 1;
                    proof {
                        let pre = alts.subrange(0, k - 1);
                        let cur = alts.subrange(0, k as int);
                        assert(cur.drop_last() =~= pre);
                        assert(cur.last() == alts[k - 1]);
                        assert(v@ =~= header_chars(idx as nat) + self.funcs()[idx as int]
                            + verbose_alts(cur));
                    }
                }
                proof {
                    assert(alts.subrange(0, n as int) =~= alts);
                }
                v
            },
        }
    }

    /// The `#id = ` prefix, as characters.
    fn header(&self, idx: usize) -> (v: Vec<char>)
        requires
            self.wf(),
            idx < self.funcs().len(),
        ensures
            v@ == header_chars(idx as nat),
    {
        proof {
            self.lemma_wf_facts();
        }
        let mut v: Vec<char> = Vec::new();
        v.push('#');
        assert(idx < u32::MAX as usize);
        let digits = u32_to_chars(idx as u32);
        append_chars(&mut v, &digits);
        v.push(' ');
        v.push('=');
        v.push(' ');
        assert(v@ =~= header_chars(idx as nat));
        v
    }

    /// The canonical (mangled) name of a node.
    pub fn canonical_name(&self, idx: usize) -> (r: String)
        requires
            self.wf(),
            idx < self.funcs().len(),
        ensures
            r@ == self.funcs()[idx as int],
    {
        pg_node_name(self.graph_ref(), idx)
    }

    /// How many alternate names a node has.
    pub fn alt_count(&self, idx: usize) -> (n: usize)
        requires
            self.wf(),
            idx < self.funcs().len(),
        ensures
            n == self.alts()[idx as int].len(),
    {
        self.alt_names_ref(idx).len()
    }

    /// One alternate name of a node.
    pub fn alt_name(&self, idx: usize, k: usize) -> (r: String)
        requires
            self.wf(),
            idx < self.funcs().len(),
            k < self.alts()[idx as int].len(),
        ensures
            r@ == self.alts()[idx as int][k as int],
    {
        self.alt_names_ref(idx)[k].clone()
    }

    /// Renders one node at the given brevity.
    pub fn name(&self, idx: usize, brevity: DescriptionBrevity) -> (r: String)
        requires
            self.wf(),
            idx < self.funcs().len(),
        ensures
            r@ == describe_spec(
                self.funcs()[idx as int],
                self.alts()[idx as int],
                idx as nat,
                brevity,
            ),
    {
        let v = self.describe_chars(idx, brevity);
        chars_to_string(&v)
    }

    /// All names of a node: the canonical name first, then every alternate
    /// name in registration order.
    pub fn names(&self, idx: usize) -> (r: Vec<String>)
        requires
            self.wf(),
            idx < self.funcs().len(),
        ensures
            r.deep_view() == seq![self.funcs()[idx as int]] + self.alts()[idx as int],
    {
        proof {
            self.lemma_wf_facts();
        }
        let mut r: Vec<String> = Vec::new();
        r.push(self.canonical_name(idx));
        let n = self.alt_count(idx);
        let mut k: usize = 0;
        while k < n
            invariant
                self.wf(),
                idx < self.funcs().len(),
                n == self.alts()[idx as int].len(),
                k <= n,
                r@.len() == 1 + k,
                r@[0]@ == self.funcs()[idx as int],
                forall|t: int| 0 <= t < k ==> (#[trigger] r@[t + 1])@ == self.alts()[idx as int][t],
            decreases n - k,
        {
            proof {
                self.lemma_wf_facts();
            }
            r.push(self.alt_name(idx, k));
            k += 1;
        }
        proof {
            assert forall|t: int| 0 <= t < r.deep_view().len() implies r.deep_view()[t] == (
            seq![self.funcs()[idx as int]] + self.alts()[idx as int])[t] by {
                if t > 0 {
                    assert(r@[(t - 1) + 1]@ == self.alts()[idx as int][t - 1]);
                }
            }
            assert(r.deep_view() =~= seq![self.funcs()[idx as int]] + self.alts()[idx as int]);
        }
        r
    }

    /// The comma-joined names of the property bits set in `propset`, in
    /// table order.
    pub fn describe_property_set(&self, propset: u32) -> (r: String)
        requires
            self.wf(),
        ensures
            r@ == props_desc(self.props(), propset),
    {
        let v = self.props_desc_chars(propset);
        chars_to_string(&v)
    }

    /// The property-set description, as characters.
    fn props_desc_chars(&self, propset: u32) -> (v: Vec<char>)
        requires
            self.wf(),
        ensures
            v@ == props_desc(self.props(), propset),
    {
        let mut v: Vec<char> = Vec::new();
        let n = self.prop_count();
        let mut i: usize = 0;
        while i < n
            invariant
                self.wf(),
                n == self.props().len(),
                i <= n,
                v@ == props_desc_parts(self.props().subrange(0, i as int), propset),
            decreases n - i,
        {
            let (bit, pname) = self.prop_entry(i);
            if bit & propset != 0 {
                append_chars(&mut v, &str_to_chars(pname.as_str()));
                v.push(',');
            }
            i += 1;
            proof {
                let pre = self.props().subrange(0, i - 1);
                let cur = self.props().subrange(0, i as int);
                assert(cur.drop_last() =~= pre);
                assert(cur.last() == self.props()[i - 1]);
                assert(v@ =~= props_desc_parts(cur, propset));
            }
        }
        proof {
            assert(self.props().subrange(0, n as int) =~= self.props());
        }
        if v.len() > 0 {
            v.pop();
        }
        v
    }

    /// The bit of the property with exactly this display name, if the
    /// table holds one.
    pub fn resolve_property(&self, query: &str) -> (r: Option<u32>)
        requires
            self.wf(),
        ensures
            r == prop_lookup(self.props(), query@),
    {
        let q = query.to_owned();
        let n = self.prop_count();
        let mut i: usize = 0;
        while i < n
            invariant
                self.wf(),
                q@ == query@,
                n == self.props().len(),
                i <= n,
                forall|k: int| 0 <= k < i ==> (#[trigger] self.props()[k]).1 != query@,
            decreases n - i,
        {
            let (bit, pname) = self.prop_entry(i);
            if pname == q {
                proof {
                    lemma_prop_lookup_skip(self.props(), query@, i as int);
                    assert(self.props().skip(i as int)[0] == self.props()[i as int]);
                }
                return Some(bit);
            }
            i += 1;
        }
        proof {
            lemma_prop_lookup_skip(self.props(), query@, n as int);
            assert(self.props().skip(n as int) =~= Seq::<(u32, Seq<char>)>::empty());
        }
        None
    }

    /// Renders the edge's target node, followed by its property sets when
    /// any property may hold on it.
    pub fn describe_edge(&self, e: usize, brevity: DescriptionBrevity) -> (r: String)
        requires
            self.wf(),
            e < self.edges().len(),
        ensures
            ({
                let dst = self.edges()[e as int].1;
                let ps = self.edges()[e as int].2;
                r@ == describe_spec(
                    self.funcs()[dst as int],
                    self.alts()[dst as int],
                    dst as nat,
                    brevity,
                ) + edge_suffix(ps, self.props())
            }),
    {
        proof {
            self.lemma_wf_facts();
        }
        let (_, dst) = self.edge_endpoints(e);
        let ps = self.edge_props(e);
        let mut v = self.describe_chars(dst, brevity);
        if ps.any != 0 {
            v.push(' ');
            v.push('[');
            append_chars(&mut v, &self.props_desc_chars(ps.any));
            if ps.any != ps.all {
                v.push(':');
                append_chars(&mut v, &self.props_desc_chars(ps.all));
            }
            v.push(']');
        }
        proof {
            let dsti = self.edges()[e as int].1 as int;
            assert(v@ =~= describe_spec(
                self.funcs()[dsti],
                self.alts()[dsti],
                self.edges()[e as int].1 as nat,
                brevity,
            ) + edge_suffix(self.edges()[e as int].2, self.props()));
        }
        chars_to_string(&v)
    }
}

} // verus!
