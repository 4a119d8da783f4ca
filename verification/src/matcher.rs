//! Ad-hoc node filtering, independent of `resolve`: a matcher built from a
//! plain substring or a `/…/`-delimited regular expression tests a node by
//! every one of its names.

use vstd::prelude::*;

use crate::callgraph::Callgraph;
use crate::resolve::is_regex_delim;
use crate::rx::re_compile;
use crate::rx::re_is_match;
use crate::rx::re_match;
use crate::rx::re_source;
use crate::rx::re_valid;
use crate::text::contains_chars;
use crate::text::contains_seq;
use crate::text::str_to_chars;

verus! {

pub enum Matcher {
    Substring(String),
    Pattern(regex::Regex),
}

impl Matcher {
    /// Whether this matcher accepts one name.
    pub open spec fn accepts(self, name: Seq<char>) -> bool {
        match self {
            Matcher::Substring(s) => contains_seq(name, s@),
            Matcher::Pattern(re) => re_match(re_source(re), name),
        }
    }

    /// Builds a matcher: a `/…/` pattern compiles its interior as a
    /// regex, failing on an invalid one; anything else matches as a
    /// substring.
    pub fn new(pattern: &str) -> (r: Option<Matcher>)
        ensures
            ({
                if is_regex_delim(pattern@) {
                    let interior = pattern@.subrange(1, pattern@.len() - 1);
                    match r {
                        Some(m) => re_valid(interior) && (m matches Matcher::Pattern(re)
                            && re_source(re) == interior),
                        None => !re_valid(interior),
                    }
                } else {
                    r matches Some(m) && (m matches Matcher::Substring(s) && s@ == pattern@)
                }
            }),
    {
        let pchars = str_to_chars(pattern);
        let plen = pchars.len();
        if plen >= 2 && pchars[0] == '/' && pchars[plen - 1] == '/' {
            let interior = crate::text::string_range(&pchars, 1, plen - 1);
            match re_compile(interior.as_str()) {
                Some(re) => Some(Matcher::Pattern(re)),
                None => None,
            }
        } else {
            Some(Matcher::Substring(pattern.to_owned()))
        }
    }

    /// Whether the matcher accepts the node: its canonical name or any
    /// alternate name matches.
    pub fn is_match(&self, cg: &Callgraph, idx: usize) -> (b: bool)
        requires
            cg.wf(),
            idx < cg.funcs().len(),
        ensures
            b == (self.accepts(cg.funcs()[idx as int]) || exists|k: int|
                0 <= k < cg.alts()[idx as int].len() && self.accepts(
                    #[trigger] cg.alts()[idx as int][k],
                )),
    {
        let canonical = cg.canonical_name(idx);
        if self.test_name(&canonical) {
            return true;
        }
        let an = cg.alt_count(idx);
        let mut k: usize = 0;
        while k < an
            invariant
                cg.wf(),
                idx < cg.funcs().len(),
                an == cg.alts()[idx as int].len(),
                k <= an,
                forall|t: int| 0 <= t < k ==> !self.accepts(#[trigger] cg.alts()[idx as int][t]),
            decreases an - k,
        {
            proof {
                cg.lemma_wf_facts();
            }
            let alt = cg.alt_name(idx, k);
            if self.test_name(&alt) {
                return true;
            }
            k += 1;
        }
        false
    }

    /// Whether the matcher accepts one concrete name.
    fn test_name(&self, name: &String) -> (b: bool)
        ensures
            b == self.accepts(name@),
    {
        match self {
            Matcher::Substring(s) => contains_chars(
                &str_to_chars(name.as_str()),
                &str_to_chars(s.as_str()),
            ),
            Matcher::Pattern(re) => re_is_match(re, name.as_str()),
        }
    }
}

} // verus!
