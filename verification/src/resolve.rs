//! Name resolution: a pattern is tried against the stem index, then as a
//! `/…/`-delimited regular expression, then as a `#id` identifier
//! reference, then as an exact canonical name, and last as a substring of
//! the alternate names. The regex strategy alone answers with an empty
//! (but present) match set; every other strategy hands the pattern on, or
//! fails, when it finds nothing.

use vstd::prelude::*;

use crate::callgraph::Callgraph;
use crate::rx::re_compile;
use crate::rx::re_is_match;
use crate::rx::re_match;
use crate::rx::re_valid;
use crate::text::all_digits;
use crate::text::contains_seq;
use crate::text::contains_chars;
use crate::text::dec_value;
use crate::text::parse_u32;
use crate::text::str_to_chars;
use crate::text::string_range;

verus! {

/// A pattern of at least two characters wrapped in `/…/` is a regex
/// pattern.
pub open spec fn is_regex_delim(p: Seq<char>) -> bool {
    p.len() >= 2 && p[0] == '/' && p[p.len() - 1] == '/'
}

/// The identifiers registered under stem `q`, when `q` is a key of the
/// stem table.
pub open spec fn stem_lookup(stems: Seq<(Seq<char>, Seq<usize>)>, q: Seq<char>) -> Option<
    Seq<usize>,
>
    decreases stems.len(),
{
    if stems.len() == 0 {
        None
    } else if stems[0].0 == q {
        Some(stems[0].1)
    } else {
        stem_lookup(stems.drop_first(), q)
    }
}

/// Node `i` matches regex `p` through its canonical name or any alternate
/// name.
pub open spec fn regex_node_match(
    funcs: Seq<Seq<char>>,
    alts: Seq<Seq<Seq<char>>>,
    i: int,
    p: Seq<char>,
) -> bool {
    re_match(p, funcs[i]) || exists|k: int| 0 <= k < alts[i].len() && re_match(p, alts[i][k])
}

/// The nodes in `1..n` (the sentinel excluded) matching regex `p`, in
/// identifier order.
pub open spec fn regex_results(
    funcs: Seq<Seq<char>>,
    alts: Seq<Seq<Seq<char>>>,
    p: Seq<char>,
    n: int,
) -> Seq<usize>
    decreases n,
{
    if n <= 1 {
        Seq::empty()
    } else {
        regex_results(funcs, alts, p, n - 1) + if regex_node_match(funcs, alts, n - 1, p) {
            seq![(n - 1) as usize]
        } else {
            Seq::empty()
        }
    }
}

/// The nodes in `0..n` whose canonical name equals `q`, in identifier
/// order.
pub open spec fn exact_results(funcs: Seq<Seq<char>>, q: Seq<char>, n: int) -> Seq<usize>
    decreases n,
{
    if n <= 0 {
        Seq::empty()
    } else {
        exact_results(funcs, q, n - 1) + if funcs[n - 1] == q {
            seq![(n - 1) as usize]
        } else {
            Seq::empty()
        }
    }
}

/// Node `i` has an alternate name holding `q` as a substring.
pub open spec fn substr_node_match(alts: Seq<Seq<Seq<char>>>, i: int, q: Seq<char>) -> bool {
    exists|k: int| 0 <= k < alts[i].len() && contains_seq(alts[i][k], q)
}

/// The nodes in `0..n` with a substring hit among their alternate names,
/// in identifier order.
pub open spec fn substr_results(alts: Seq<Seq<Seq<char>>>, q: Seq<char>, n: int) -> Seq<usize>
    decreases n,
{
    if n <= 0 {
        Seq::empty()
    } else {
        substr_results(alts, q, n - 1) + if substr_node_match(alts, n - 1, q) {
            seq![(n - 1) as usize]
        } else {
            Seq::empty()
        }
    }
}

/// What `resolve` answers for pattern `p` over a graph with canonical
/// names `funcs`, alternate names `alts` and stem index `stems`: the
/// strategies in priority order, `None` where all fail. The regex
/// strategy succeeds even with an empty match set; an invalid regex, an
/// out-of-range or malformed identifier reference, and a pattern no
/// strategy matches all fail.
pub open spec fn resolve_spec(
    funcs: Seq<Seq<char>>,
    alts: Seq<Seq<Seq<char>>>,
    stems: Seq<(Seq<char>, Seq<usize>)>,
    p: Seq<char>,
) -> Option<Seq<usize>> {
    if p.len() == 0 {
        None
    } else if stem_lookup(stems, p) is Some {
        stem_lookup(stems, p)
    } else if is_regex_delim(p) {
        let interior = p.subrange(1, p.len() - 1);
        if re_valid(interior) {
            Some(regex_results(funcs, alts, interior, funcs.len() as int))
        } else {
            None
        }
    } else if p[0] == '#' {
        let digits = p.subrange(1, p.len() as int);
        if digits.len() > 0 && all_digits(digits) && dec_value(digits) < funcs.len() {
            Some(seq![dec_value(digits) as usize])
        } else {
            None
        }
    } else {
        let ex = exact_results(funcs, p, funcs.len() as int);
        if ex.len() > 0 {
            Some(ex)
        } else {
            let sub = substr_results(alts, p, alts.len() as int);
            if sub.len() > 0 {
                Some(sub)
            } else {
                None
            }
        }
    }
}

/// Scanning past keys other than `q` does not change the stem lookup.
proof fn lemma_stem_lookup_skip(stems: Seq<(Seq<char>, Seq<usize>)>, q: Seq<char>, i: int)
    requires
        0 <= i <= stems.len(),
        forall|k: int| 0 <= k < i ==> (#[trigger] stems[k]).0 != q,
    ensures
        stem_lookup(stems, q) == stem_lookup(stems.skip(i), q),
    decreases i,
{
    if i > 0 {
        let rest = stems.drop_first();
        assert(forall|k: int| 0 <= k < i - 1 ==> (#[trigger] rest[k]).0 != q);
        lemma_stem_lookup_skip(rest, q, i - 1);
        assert(rest.skip(i - 1) =~= stems.skip(i));
    } else {
        assert(stems.skip(0) =~= stems);
    }
}

impl Callgraph {
    /// Resolves a pattern to the set of node identifiers it denotes, or
    /// answers nothing when every strategy fails.
    pub fn resolve(&self, pattern: &str) -> (r: Option<Vec<usize>>)
        requires
            self.wf(),
        ensures
            match r {
                Some(v) => resolve_spec(self.funcs(), self.alts(), self.stems(), pattern@)
                    == Some(v@) && forall|k: int|
                    0 <= k < v@.len() ==> #[trigger] v@[k] < self.funcs().len(),
                None => resolve_spec(self.funcs(), self.alts(), self.stems(), pattern@) is None,
            },
    {
        proof {
            self.lemma_wf_facts();
        }
        if pattern.is_empty() {
            return None;
        }
        // Exact match with a stem.
        let q = pattern.to_owned();
        let sn = self.stem_count();
        let mut si: usize = 0;
        while si < sn
            invariant
                self.wf(),
                q@ == pattern@,
                pattern@.len() > 0,
                sn == self.stems().len(),
                si <= sn,
                forall|k: int| 0 <= k < si ==> (#[trigger] self.stems()[k]).0 != pattern@,
            decreases sn - si,
        {
            if q.eq(self.stem_key(si)) {
                let ids = crate::callgraph::copy_ids(self.stem_ids(si));
                proof {
                    self.lemma_wf_facts();
                    lemma_stem_lookup_skip(self.stems(), pattern@, si as int);
                    assert(self.stems().skip(si as int)[0] == self.stems()[si as int]);
                    assert(stem_lookup(self.stems(), pattern@) == Some(
                        self.stems()[si as int].1,
                    ));
                }
                return Some(ids);
            }
            si += 1;
        }
        proof {
            lemma_stem_lookup_skip(self.stems(), pattern@, sn as int);
            assert(self.stems().skip(sn as int) =~= Seq::<(Seq<char>, Seq<usize>)>::empty());
            assert(stem_lookup(self.stems(), pattern@) is None);
        }
        let pchars = str_to_chars(pattern);
        let plen = pchars.len();
        // Regex match if the pattern is /…/.
        if plen >= 2 && pchars[0] == '/' && pchars[plen - 1] == '/' {
            let interior = string_range(&pchars, 1, plen - 1);
            let ghost gi = pattern@.subrange(1, pattern@.len() - 1);
            match re_compile(interior.as_str()) {
                Some(re) => {
                    let n = self.node_count();
                    let mut results: Vec<usize> = Vec::new();
                    let mut i: usize = 1;
                    while i < n
                        invariant
                            self.wf(),
                            crate::rx::re_source(re) == gi,
                            n == self.funcs().len(),
                            1 <= i <= n,
                            results@ == regex_results(self.funcs(), self.alts(), gi, i as int),
                            forall|k: int|
                                0 <= k < results@.len() ==> #[trigger] results@[k]
                                    < self.funcs().len(),
                        decreases n - i,
                    {
                        proof {
                            self.lemma_wf_facts();
                        }
                        let mangled = self.canonical_name(i);
                        let mut hit = re_is_match(&re, mangled.as_str());
                        if !hit {
                            let an = self.alt_count(i);
                            let mut k: usize = 0;
                            while k < an && !hit
                                invariant
                                    self.wf(),
                                    crate::rx::re_source(re) == gi,
                                    i < self.funcs().len(),
                                    an == self.alts()[i as int].len(),
                                    k <= an,
                                    !hit ==> forall|t: int|
                                        0 <= t < k ==> !re_match(
                                            gi,
                                            #[trigger] self.alts()[i as int][t],
                                        ),
                                    hit ==> regex_node_match(
                                        self.funcs(),
                                        self.alts(),
                                        i as int,
                                        gi,
                                    ),
                                decreases an - k, (if hit { 0int } else { 1int }),
                            {
                                proof {
                                    self.lemma_wf_facts();
                                }
                                if re_is_match(&re, self.alt_name(i, k).as_str()) {
                                    hit = true;
                                } else {
                                    k += 1;
                                }
                            }
                        }
                        proof {
                            if !hit {
                                assert(!regex_node_match(self.funcs(), self.alts(), i as int, gi));
                            }
                        }
                        if hit {
                            results.push(i);
                        }
                        i += 1;
                        proof {
                            assert(results@ =~= regex_results(
                                self.funcs(),
                                self.alts(),
                                gi,
                                i as int,
                            ));
                        }
                    }
                    return Some(results);
                },
                None => {
                    return None;
                },
            }
        }
        // Identifier reference.
        if pchars[0] == '#' {
            let parsed = parse_u32(&pchars, 1, plen);
            let ghost digits = pattern@.subrange(1, pattern@.len() as int);
            match parsed {
                Some(v) => {
                    let n = self.node_count();
                    if (v as usize) < n {
                        let mut one: Vec<usize> = Vec::new();
                        one.push(v as usize);
                        proof {
                            assert(one@ =~= seq![dec_value(digits) as usize]);
                        }
                        return Some(one);
                    } else {
                        return None;
                    }
                },
                None => {
                    proof {
                        if digits.len() > 0 && all_digits(digits) && dec_value(digits)
                            < self.funcs().len() {
                            assert(dec_value(digits) <= u32::MAX);
                        }
                    }
                    return None;
                },
            }
        }
        // Exact match against canonical names.
        let n = self.node_count();
        let mut results: Vec<usize> = Vec::new();
        let mut i: usize = 0;
        while i < n
            invariant
                self.wf(),
                q@ == pattern@,
                n == self.funcs().len(),
                i <= n,
                results@ == exact_results(self.funcs(), pattern@, i as int),
                forall|k: int|
                    0 <= k < results@.len() ==> #[trigger] results@[k] < self.funcs().len(),
            decreases n - i,
        {
            proof {
                self.lemma_wf_facts();
            }
            let mangled = self.canonical_name(i);
            if mangled == q {
                results.push(i);
            }
            i += 1;
            proof {
                assert(results@ =~= exact_results(self.funcs(), pattern@, i as int));
            }
        }
        if results.len() > 0 {
            return Some(results);
        }
        // Substring match against alternate names.
        let mut subs: Vec<usize> = Vec::new();
        let mut i2: usize = 0;
        while i2 < n
            invariant
                self.wf(),
                n == self.funcs().len(),
                i2 <= n,
                subs@ == substr_results(self.alts(), pattern@, i2 as int),
                pchars@ == pattern@,
                forall|k: int| 0 <= k < subs@.len() ==> #[trigger] subs@[k] < self.funcs().len(),
            decreases n - i2,
        {
            proof {
                self.lemma_wf_facts();
            }
            let an = self.alt_count(i2);
            let mut hit = false;
            let mut k: usize = 0;
            while k < an && !hit
                invariant
                    self.wf(),
                    i2 < self.funcs().len(),
                    an == self.alts()[i2 as int].len(),
                    k <= an,
                    pchars@ == pattern@,
                    !hit ==> forall|t: int|
                        0 <= t < k ==> !contains_seq(#[trigger] self.alts()[i2 as int][t], pattern@),
                    hit ==> substr_node_match(self.alts(), i2 as int, pattern@),
                decreases an - k, (if hit { 0int } else { 1int }),
            {
                proof {
                    self.lemma_wf_facts();
                }
                let alt = self.alt_name(i2, k);
                if contains_chars(&str_to_chars(alt.as_str()), &pchars) {
                    hit = true;
                } else {
                    k += 1;
                }
            }
            proof {
                if !hit {
                    assert(!substr_node_match(self.alts(), i2 as int, pattern@));
                }
            }
            if hit {
                subs.push(i2);
            }
            i2 += 1;
            proof {
                assert(subs@ =~= substr_results(self.alts(), pattern@, i2 as int));
            }
        }
        proof {
            assert(self.alts().len() == self.funcs().len());
        }
        if subs.len() > 0 {
            return Some(subs);
        }
        None
    }
}

} // verus!
