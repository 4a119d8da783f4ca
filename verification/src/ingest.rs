//! The ingestion pipeline: a line-oriented description of functions,
//! calls, alternate names, indirect calls and property tables becomes a
//! graph. Function declarations must carry identifiers in assignment
//! order; indirect-call targets are collected and materialized only after
//! the whole description was read, deduplicated by description text and
//! property set; finally the root and sink sets are computed and frozen.

use vstd::prelude::*;

use crate::callgraph::Callgraph;
use crate::callgraph::EdgeModel;
use crate::callgraph::mirror_edges;
use crate::callgraph::props_upsert;
use crate::derive::terminal_set_ok;
use crate::propjson::json_prop_entries;
use crate::propjson::prop_entries_of;
use crate::props::PropertySet;
use crate::stems::stems_add;
use crate::stems::stem_of;
use crate::text::all_digits;
use crate::text::dec_value;
use crate::text::find_from;
use crate::text::find_from_at;
use crate::text::parse_u32;
use crate::text::skip_spaces_at;
use crate::text::skip_spaces_spec;
use crate::text::str_to_chars;
use crate::text::string_range;
use crate::text::chars_eq;
use crate::text::token_end_at;
use crate::text::token_end_spec;
use vstd::string::StringExecFns;

verus! {

/// Why a load failed: the numbered line is malformed, declares a
/// function out of sequence, or names a node that does not exist.
#[derive(Debug)]
pub enum LoadError {
    FormatError(u32, String),
}

impl LoadError {
    /// The number of the offending line.
    pub fn line(&self) -> (n: u32)
        ensures
            self matches LoadError::FormatError(ln, _) && n == ln,
    {
        match self {
            LoadError::FormatError(ln, _) => *ln,
        }
    }

    /// The offending content or reason.
    pub fn detail(&self) -> (s: &String)
        ensures
            self matches LoadError::FormatError(_, d) && s@ == d@,
    {
        match self {
            LoadError::FormatError(_, d) => d,
        }
    }
}

/// One record of the input format, as the specification sees it.
pub enum Rec {
    /// `#<id> <name>`: declare a function.
    Func { id: u32, name: Seq<char> },
    /// `D`/`R` with an optional property prefix: a call edge.
    Call { src: u32, dst: u32, ps: PropertySet },
    /// `= <id> <name>`: an alternate name.
    AltName { id: u32, name: Seq<char> },
    /// `I` with an optional property prefix: a deferred indirect call.
    Indirect { src: u32, desc: Seq<char>, ps: PropertySet },
    /// `!<json>`: a property-name table.
    PropTable { text: Seq<char> },
    /// An empty line, or a field-call, tag or virtual-method record.
    Skip,
    /// A malformed line.
    Bad,
}

/// A token parsed as an unsigned 32-bit decimal number.
pub open spec fn pnum(t: Seq<char>) -> Option<u32> {
    if t.len() > 0 && all_digits(t) && dec_value(t) <= u32::MAX {
        Some(dec_value(t) as u32)
    } else {
        None
    }
}

/// A call record's final step: sources and targets parsed as numbers,
/// with the `SUPPRESS_GC` keyword shifting the fields by one and forcing
/// the single-bit property set.
pub open spec fn call_from(
    line: Seq<char>,
    srct: Seq<char>,
    dt_end: int,
    dstt: Seq<char>,
    ps: PropertySet,
) -> Rec {
    if srct == "SUPPRESS_GC"@ {
        let s = skip_spaces_spec(line, dt_end);
        if s >= line.len() {
            Rec::Bad
        } else {
            let e = token_end_spec(line, s);
            call_make(dstt, line.subrange(s, e), PropertySet { all: 1, any: 1 })
        }
    } else {
        call_make(srct, dstt, ps)
    }
}

pub open spec fn call_make(srct: Seq<char>, dstt: Seq<char>, ps: PropertySet) -> Rec {
    match (pnum(srct), pnum(dstt)) {
        (Some(s), Some(d)) => Rec::Call { src: s, dst: d, ps },
        _ => Rec::Bad,
    }
}

/// After a property prefix the source is the second token and the target
/// the third.
pub open spec fn call_prefixed(line: Seq<char>, srct: Seq<char>, e2: int, ps: PropertySet) -> Rec {
    let s3 = skip_spaces_spec(line, e2);
    if s3 >= line.len() {
        Rec::Bad
    } else {
        let e3 = token_end_spec(line, s3);
        call_from(line, srct, e3, line.subrange(s3, e3), ps)
    }
}

/// A `D`/`R` record: an optional `all:any`, `/bits` or `SUPPRESS_GC`
/// prefix, then a source and a target identifier. An `all` mask that is
/// not a subset of its `any` mask is rejected, keeping every stored
/// property set well formed.
pub open spec fn parse_call_rec(line: Seq<char>) -> Rec {
    if line.len() < 2 {
        Rec::Bad
    } else {
        let s1 = skip_spaces_spec(line, 2);
        if s1 >= line.len() {
            Rec::Bad
        } else {
            let e1 = token_end_spec(line, s1);
            let t1 = line.subrange(s1, e1);
            let s2 = skip_spaces_spec(line, e1);
            if s2 >= line.len() {
                Rec::Bad
            } else {
                let e2 = token_end_spec(line, s2);
                let t2 = line.subrange(s2, e2);
                let c = find_from(t1, 0, ':');
                if c < t1.len() {
                    match (pnum(t1.subrange(0, c)), pnum(t1.subrange(c + 1, t1.len() as int))) {
                        (Some(all), Some(any)) => if all & any == all {
                            call_prefixed(line, t2, e2, PropertySet { all, any })
                        } else {
                            Rec::Bad
                        },
                        _ => Rec::Bad,
                    }
                } else if t1[0] == '/' {
                    match pnum(t1.subrange(1, t1.len() as int)) {
                        Some(bits) => call_prefixed(
                            line,
                            t2,
                            e2,
                            PropertySet { all: bits, any: bits },
                        ),
                        None => Rec::Bad,
                    }
                } else {
                    call_from(line, t1, e2, t2, PropertySet { all: 0, any: 0 })
                }
            }
        }
    }
}

/// A `#` record: the declared identifier up to the first space, the
/// canonical name after it.
pub open spec fn parse_func_rec(line: Seq<char>) -> Rec {
    let sp = find_from(line, 0, ' ');
    if sp >= line.len() {
        Rec::Bad
    } else {
        match pnum(line.subrange(1, sp)) {
            Some(id) => Rec::Func { id, name: line.subrange(sp + 1, line.len() as int) },
            None => Rec::Bad,
        }
    }
}

/// A `=` record: the identifier after the marker, the alternate name
/// after the next space.
pub open spec fn parse_alt_rec(line: Seq<char>) -> Rec {
    if line.len() < 2 {
        Rec::Bad
    } else {
        let sp = find_from(line, 2, ' ');
        if sp >= line.len() {
            Rec::Bad
        } else {
            match pnum(line.subrange(2, sp)) {
                Some(id) => Rec::AltName { id, name: line.subrange(sp + 1, line.len() as int) },
                None => Rec::Bad,
            }
        }
    }
}

pub open spec fn ind_make(line: Seq<char>, srct: Seq<char>, tend: int, ps: PropertySet) -> Rec {
    if tend + 1 > line.len() {
        Rec::Bad
    } else {
        match pnum(srct) {
            Some(s) => Rec::Indirect {
                src: s,
                desc: line.subrange(tend + 1, line.len() as int),
                ps,
            },
            None => Rec::Bad,
        }
    }
}

/// An `I` record: an optional `/bits` prefix, a source identifier, and
/// the target description to the end of the line.
pub open spec fn parse_ind_rec(line: Seq<char>) -> Rec {
    if line.len() < 2 {
        Rec::Bad
    } else {
        let s1 = skip_spaces_spec(line, 2);
        if s1 >= line.len() {
            Rec::Bad
        } else {
            let e1 = token_end_spec(line, s1);
            let t1 = line.subrange(s1, e1);
            if t1[0] == '/' {
                match pnum(t1.subrange(1, t1.len() as int)) {
                    None => Rec::Bad,
                    Some(bits) => {
                        let s2 = skip_spaces_spec(line, e1);
                        if s2 >= line.len() {
                            Rec::Bad
                        } else {
                            let e2 = token_end_spec(line, s2);
                            ind_make(
                                line,
                                line.subrange(s2, e2),
                                e2,
                                PropertySet { all: bits, any: bits },
                            )
                        }
                    },
                }
            } else {
                ind_make(line, t1, e1, PropertySet { all: 0, any: 0 })
            }
        }
    }
}

/// What one line of the description means, dispatched on its leading
/// character; an empty line means nothing, an unknown leading character
/// is a format error.
pub open spec fn parse_record(line: Seq<char>) -> Rec {
    if line.len() == 0 {
        Rec::Skip
    } else if line[0] == '#' {
        parse_func_rec(line)
    } else if line[0] == 'D' || line[0] == 'R' {
        parse_call_rec(line)
    } else if line[0] == '=' {
        parse_alt_rec(line)
    } else if line[0] == 'F' || line[0] == 'T' || line[0] == 'V' {
        Rec::Skip
    } else if line[0] == 'I' {
        parse_ind_rec(line)
    } else if line[0] == '!' {
        if line.len() >= 2 {
            Rec::PropTable { text: line.subrange(2, line.len() as int) }
        } else {
            Rec::Bad
        }
    } else {
        Rec::Bad
    }
}

/// The parsed form of one line, for the loader.
enum Parsed {
    PFunc(u32, String),
    PCall(u32, u32, PropertySet),
    PAlt(u32, String),
    PInd(u32, String, PropertySet),
    PTable(String),
    PSkip,
    PBad,
}

/// Parses one line; the result agrees with `parse_record` of the line's
/// characters.
fn parse_line(v: &Vec<char>) -> (p: Parsed)
    ensures
        ({
            let r = parse_record(v@);
            match p {
                Parsed::PFunc(id, name) => r == (Rec::Func { id, name: name@ }),
                Parsed::PCall(src, dst, ps) => r == (Rec::Call { src, dst, ps }) && ps.wf(),
                Parsed::PAlt(id, name) => r == (Rec::AltName { id, name: name@ }),
                Parsed::PInd(src, desc, ps) => r == (Rec::Indirect { src, desc: desc@, ps })
                    && ps.wf(),
                Parsed::PTable(text) => r == (Rec::PropTable { text: text@ }),
                Parsed::PSkip => r == Rec::Skip,
                Parsed::PBad => r == Rec::Bad,
            }
        }),
{
    let n = v.len();
    if n == 0 {
        return Parsed::PSkip;
    }
    let c0 = v[0];
    if c0 == '#' {
        let sp = find_from_at(v, 0, ' ');
        if sp >= n {
            return Parsed::PBad;
        }
        proof {
            lemma_find_char_first(v@, 0, ' ');
            assert(v@[0] != ' ');
        }
        match parse_u32(v, 1, sp) {
            Some(id) => Parsed::PFunc(id, string_range(v, sp + 1, n)),
            None => Parsed::PBad,
        }
    } else if c0 == 'D' || c0 == 'R' {
        parse_call_line(v)
    } else if c0 == '=' {
        if n < 2 {
            return Parsed::PBad;
        }
        let sp = find_from_at(v, 2, ' ');
        if sp >= n {
            return Parsed::PBad;
        }
        match parse_u32(v, 2, sp) {
            Some(id) => Parsed::PAlt(id, string_range(v, sp + 1, n)),
            None => Parsed::PBad,
        }
    } else if c0 == 'F' || c0 == 'T' || c0 == 'V' {
        Parsed::PSkip
    } else if c0 == 'I' {
        parse_ind_line(v)
    } else if c0 == '!' {
        if n >= 2 {
            Parsed::PTable(string_range(v, 2, n))
        } else {
            Parsed::PBad
        }
    } else {
        Parsed::PBad
    }
}

/// Parses a `D`/`R` record.
fn parse_call_line(v: &Vec<char>) -> (p: Parsed)
    requires
        v@.len() > 0,
        v@[0] == 'D' || v@[0] == 'R',
    ensures
        ({
            let r = parse_record(v@);
            match p {
                Parsed::PCall(src, dst, ps) => r == (Rec::Call { src, dst, ps }) && ps.wf(),
                Parsed::PBad => r == Rec::Bad,
                _ => false,
            }
        }),
{
    let n = v.len();
    if n < 2 {
        return Parsed::PBad;
    }
    let s1 = skip_spaces_at(v, 2);
    if s1 >= n {
        return Parsed::PBad;
    }
    let e1 = token_end_at(v, s1);
    let s2 = skip_spaces_at(v, e1);
    if s2 >= n {
        return Parsed::PBad;
    }
    let e2 = token_end_at(v, s2);
    let c = find_from_at(v, s1, ':');
    let ghost t1 = v@.subrange(s1 as int, e1 as int);
    let ghost t2 = v@.subrange(s2 as int, e2 as int);
    proof {
        crate::text::lemma_skip_spaces_first(v@, 2);
        crate::text::lemma_token_end_first(v@, s1 as int);
        lemma_find_in_token(v@, s1 as int, e1 as int, c as int, ':');
    }
    if c < e1 {
        // all:any prefix on the first token
        let all = parse_u32(v, s1, c);
        let any = parse_u32(v, c + 1, e1);
        proof {
            assert(t1.subrange(0, c - s1) =~= v@.subrange(s1 as int, c as int));
            assert(t1.subrange(c - s1 + 1, t1.len() as int) =~= v@.subrange(
                c + 1,
                e1 as int,
            ));
        }
        match (all, any) {
            (Some(a), Some(y)) => {
                if a & y == a {
                    call_prefixed_exec(v, s2, e2, PropertySet { all: a, any: y })
                } else {
                    Parsed::PBad
                }
            },
            _ => Parsed::PBad,
        }
    } else if v[s1] == '/' {
        proof {
            assert(t1[0] == v@[s1 as int]);
            assert(t1.subrange(1, t1.len() as int) =~= v@.subrange(s1 + 1, e1 as int));
        }
        match parse_u32(v, s1 + 1, e1) {
            Some(bits) => {
                proof {
                    assert(bits & bits == bits) by (bit_vector);
                }
                call_prefixed_exec(v, s2, e2, PropertySet { all: bits, any: bits })
            },
            None => Parsed::PBad,
        }
    } else {
        proof {
            assert(t1[0] == v@[s1 as int]);
            assert(0u32 & 0u32 == 0u32) by (bit_vector);
        }
        call_from_exec(v, s1, e1, e2, s2, e2, PropertySet { all: 0, any: 0 })
    }
}

/// The first `:` at or after a token's start either lies inside the
/// token or beyond its end, in which case the token has no colon.
proof fn lemma_find_in_token(s: Seq<char>, st: int, en: int, c: int, ch: char)
    requires
        0 <= st <= en <= s.len(),
        c == find_from(s, st, ch),
        en == token_end_spec(s, st),
    ensures
        c < en ==> find_from(s.subrange(st, en), 0, ch) == c - st,
        c >= en ==> find_from(s.subrange(st, en), 0, ch) == en - st,
    decreases en - st,
{
    let t = s.subrange(st, en);
    lemma_find_from_range(s, st, en, ch);
}

/// Characterizes `find_from` over a subrange by the characters alone.
proof fn lemma_find_from_range(s: Seq<char>, st: int, en: int, ch: char)
    requires
        0 <= st <= en <= s.len(),
    ensures
        ({
            let c = find_from(s, st, ch);
            let t = s.subrange(st, en);
            let ct = find_from(t, 0, ch);
            (c < en ==> ct == c - st) && (c >= en ==> ct == t.len())
        }),
{
    let t = s.subrange(st, en);
    lemma_find_char_first(s, st, ch);
    lemma_find_char_first(t, 0, ch);
    let c = find_from(s, st, ch);
    let ct = find_from(t, 0, ch);
    if c < en {
        assert(t[c - st] == ch);
        assert(forall|j: int| 0 <= j < c - st ==> t[j] != ch);
        if ct < c - st {
            assert(s[st + ct] == t[ct]);
        }
        assert(ct == c - st);
    } else {
        assert forall|j: int| 0 <= j < t.len() implies t[j] != ch by {
            assert(t[j] == s[st + j]);
        }
        assert(ct == t.len());
    }
}

/// `find_from` yields the first occurrence, or the length.
proof fn lemma_find_char_first(s: Seq<char>, i: int, ch: char)
    requires
        0 <= i <= s.len(),
    ensures
        i <= find_from(s, i, ch) <= s.len(),
        find_from(s, i, ch) < s.len() ==> s[find_from(s, i, ch)] == ch,
        forall|j: int| i <= j < find_from(s, i, ch) ==> s[j] != ch,
    decreases s.len() - i,
{
    if i < s.len() && s[i] != ch {
        lemma_find_char_first(s, i + 1, ch);
    }
}

/// Continues a call record after its property prefix: pulls the third
/// token and finishes.
fn call_prefixed_exec(v: &Vec<char>, s2: usize, e2: usize, ps: PropertySet) -> (p: Parsed)
    requires
        s2 <= e2 <= v@.len(),
        s2 < v@.len(),
        e2 == token_end_spec(v@, s2 as int),
        ps.wf(),
    ensures
        ({
            let r = call_prefixed(
                v@,
                v@.subrange(s2 as int, e2 as int),
                e2 as int,
                ps,
            );
            match p {
                Parsed::PCall(src, dst, ps2) => r == (Rec::Call { src, dst, ps: ps2 })
                    && ps2.wf(),
                Parsed::PBad => r == Rec::Bad,
                _ => false,
            }
        }),
{
    let n = v.len();
    let s3 = skip_spaces_at(v, e2);
    if s3 >= n {
        return Parsed::PBad;
    }
    let e3 = token_end_at(v, s3);
    call_from_exec(v, s2, e2, e3, s3, e3, ps)
}

/// Finishes a call record from a source token and a target token,
/// handling the `SUPPRESS_GC` keyword.
fn call_from_exec(
    v: &Vec<char>,
    ss: usize,
    se: usize,
    dt_end: usize,
    ds: usize,
    de: usize,
    ps: PropertySet,
) -> (p: Parsed)
    requires
        ss <= se <= v@.len(),
        ds <= de <= v@.len(),
        dt_end == de,
        ps.wf(),
    ensures
        ({
            let r = call_from(
                v@,
                v@.subrange(ss as int, se as int),
                dt_end as int,
                v@.subrange(ds as int, de as int),
                ps,
            );
            match p {
                Parsed::PCall(src, dst, ps2) => r == (Rec::Call { src, dst, ps: ps2 })
                    && ps2.wf(),
                Parsed::PBad => r == Rec::Bad,
                _ => false,
            }
        }),
{
    let n = v.len();
    let srct = crate::text::chars_range(v, ss, se);
    let keyword = str_to_chars("SUPPRESS_GC");
    if chars_eq(&srct, &keyword) {
        let s = skip_spaces_at(v, dt_end);
        if s >= n {
            return Parsed::PBad;
        }
        let e = token_end_at(v, s);
        proof {
            assert(1u32 & 1u32 == 1u32) by (bit_vector);
        }
        finish_call(v, ds, de, s, e, PropertySet { all: 1, any: 1 })
    } else {
        finish_call(v, ss, se, ds, de, ps)
    }
}

/// Parses the two identifier tokens of a call record.
fn finish_call(v: &Vec<char>, ss: usize, se: usize, ds: usize, de: usize, ps: PropertySet) -> (p:
    Parsed)
    requires
        ss <= se <= v@.len(),
        ds <= de <= v@.len(),
        ps.wf(),
    ensures
        ({
            let r = call_make(
                v@.subrange(ss as int, se as int),
                v@.subrange(ds as int, de as int),
                ps,
            );
            match p {
                Parsed::PCall(src, dst, ps2) => r == (Rec::Call { src, dst, ps: ps2 })
                    && ps2.wf(),
                Parsed::PBad => r == Rec::Bad,
                _ => false,
            }
        }),
{
    match (parse_u32(v, ss, se), parse_u32(v, ds, de)) {
        (Some(s), Some(d)) => Parsed::PCall(s, d, ps),
        _ => Parsed::PBad,
    }
}

/// Parses an `I` record.
fn parse_ind_line(v: &Vec<char>) -> (p: Parsed)
    requires
        v@.len() > 0,
        v@[0] == 'I',
    ensures
        ({
            let r = parse_record(v@);
            match p {
                Parsed::PInd(src, desc, ps) => r == (Rec::Indirect { src, desc: desc@, ps })
                    && ps.wf(),
                Parsed::PBad => r == Rec::Bad,
                _ => false,
            }
        }),
{
    let n = v.len();
    if n < 2 {
        return Parsed::PBad;
    }
    let s1 = skip_spaces_at(v, 2);
    if s1 >= n {
        return Parsed::PBad;
    }
    let e1 = token_end_at(v, s1);
    let ghost t1 = v@.subrange(s1 as int, e1 as int);
    proof {
        crate::text::lemma_skip_spaces_first(v@, 2);
        crate::text::lemma_token_end_first(v@, s1 as int);
    }
    if v[s1] == '/' {
        proof {
            assert(t1[0] == v@[s1 as int]);
            assert(t1.subrange(1, t1.len() as int) =~= v@.subrange(s1 + 1, e1 as int));
        }
        match parse_u32(v, s1 + 1, e1) {
            None => Parsed::PBad,
            Some(bits) => {
                let s2 = skip_spaces_at(v, e1);
                if s2 >= n {
                    return Parsed::PBad;
                }
                let e2 = token_end_at(v, s2);
                proof {
                    assert(bits & bits == bits) by (bit_vector);
                }
                ind_make_exec(v, s2, e2, e2, PropertySet { all: bits, any: bits })
            },
        }
    } else {
        proof {
            assert(t1[0] == v@[s1 as int]);
            assert(0u32 & 0u32 == 0u32) by (bit_vector);
        }
        ind_make_exec(v, s1, e1, e1, PropertySet { all: 0, any: 0 })
    }
}

/// Finishes an indirect record: source token parsed, description taken
/// to the end of the line.
fn ind_make_exec(v: &Vec<char>, ss: usize, se: usize, tend: usize, ps: PropertySet) -> (p: Parsed)
    requires
        ss <= se <= v@.len(),
        tend == se,
        ps.wf(),
    ensures
        ({
            let r = ind_make(v@, v@.subrange(ss as int, se as int), tend as int, ps);
            match p {
                Parsed::PInd(src, desc, ps2) => r == (Rec::Indirect { src, desc: desc@, ps: ps2 })
                    && ps2.wf(),
                Parsed::PBad => r == Rec::Bad,
                _ => false,
            }
        }),
{
    let n = v.len();
    if tend >= n {
        return Parsed::PBad;
    }
    match parse_u32(v, ss, se) {
        Some(s) => Parsed::PInd(s, string_range(v, tend + 1, n), ps),
        None => Parsed::PBad,
    }
}


/// The ingestion state the specification folds over: the graph tables
/// plus the deferred indirect calls.
pub struct LoadModel {
    pub funcs: Seq<Seq<char>>,
    pub alts: Seq<Seq<Seq<char>>>,
    pub stems: Seq<(Seq<char>, Seq<usize>)>,
    pub props: Seq<(u32, Seq<char>)>,
    pub edges: Seq<EdgeModel>,
    pub indirects: Seq<(u32, Seq<char>, PropertySet, u32)>,
}

/// The state of a fresh graph: the sentinel node and the built-in
/// property names.
pub open spec fn init_model() -> LoadModel {
    LoadModel {
        funcs: seq!["(dummy node zero)"@],
        alts: seq![Seq::<Seq<char>>::empty()],
        stems: Seq::empty(),
        props: seq![
            (1u32, "GC_SUPPRESSED"@),
            (2u32, "CANSCRIPT_BOUNDED"@),
            (4u32, "DOM_ITERATING"@),
            (8u32, "NONRELEASING"@),
            (16u32, "REPLACED"@),
        ],
        edges: Seq::empty(),
        indirects: Seq::empty(),
    }
}

/// Folds a property table into the property names: every key must be a
/// bit number.
pub open spec fn merge_entries(
    props: Seq<(u32, Seq<char>)>,
    entries: Seq<(Seq<char>, Seq<char>)>,
) -> Result<Seq<(u32, Seq<char>)>, ()>
    decreases entries.len(),
{
    if entries.len() == 0 {
        Ok(props)
    } else {
        match pnum(entries[0].0) {
            Some(bit) => merge_entries(
                props_upsert(props, bit, entries[0].1),
                entries.drop_first(),
            ),
            None => Err(()),
        }
    }
}

/// One record applied to the state; a record that cannot apply fails
/// with its line number.
pub open spec fn apply_rec(m: LoadModel, r: Rec, ln: u32) -> Result<LoadModel, u32> {
    match r {
        Rec::Skip => Ok(m),
        Rec::Bad => Err(ln),
        Rec::Func { id, name } => if id as int == m.funcs.len() {
            Ok(
                LoadModel {
                    funcs: m.funcs.push(name),
                    alts: m.alts.push(Seq::empty()),
                    ..m
                },
            )
        } else {
            Err(ln)
        },
        Rec::Call { src, dst, ps } => if (src as int) < m.funcs.len() && (dst as int)
            < m.funcs.len() {
            Ok(LoadModel { edges: m.edges.push((src as usize, dst as usize, ps)), ..m })
        } else {
            Err(ln)
        },
        Rec::AltName { id, name } => if (id as int) < m.funcs.len() {
            Ok(
                LoadModel {
                    alts: m.alts.update(id as int, m.alts[id as int].push(name)),
                    stems: stems_add(m.stems, stem_of(name), id as usize),
                    ..m
                },
            )
        } else {
            Err(ln)
        },
        Rec::Indirect { src, desc, ps } => Ok(
            LoadModel { indirects: m.indirects.push((src, desc, ps, ln)), ..m },
        ),
        Rec::PropTable { text } => match prop_entries_of(text) {
            Err(_) => Err(ln),
            Ok(es) => match merge_entries(m.props, es) {
                Ok(p) => Ok(LoadModel { props: p, ..m }),
                Err(_) => Err(ln),
            },
        },
    }
}

/// The state after the first `k` lines, or the number of the first line
/// that failed.
pub open spec fn scan_upto(lines: Seq<Seq<char>>, k: int) -> Result<LoadModel, u32>
    decreases k,
{
    if k <= 0 {
        Ok(init_model())
    } else {
        match scan_upto(lines, k - 1) {
            Err(e) => Err(e),
            Ok(m) => apply_rec(m, parse_record(lines[k - 1]), k as u32),
        }
    }
}

/// How many lines the scan reads: all of them, or one more than the
/// limit when a positive limit cuts the file short.
pub open spec fn processed_count(len: int, limit: u32) -> int {
    if limit == 0 {
        len
    } else if len <= limit + 1 {
        len
    } else {
        limit + 1
    }
}

/// The node already materialized for a target description and property
/// set, if any: indirect targets are deduplicated by that pair.
pub open spec fn seen_find(
    seen: Seq<(Seq<char>, PropertySet, usize)>,
    desc: Seq<char>,
    ps: PropertySet,
) -> Option<usize>
    decreases seen.len(),
{
    if seen.len() == 0 {
        None
    } else if seen[0].0 == desc && seen[0].1 == ps {
        Some(seen[0].2)
    } else {
        seen_find(seen.drop_first(), desc, ps)
    }
}

/// One deferred indirect call materialized: a known target is reused, a
/// new one becomes the next node; the edge from its source is added. A
/// source that is no node fails with the line number of its record.
pub open spec fn indirect_apply(
    m: LoadModel,
    seen: Seq<(Seq<char>, PropertySet, usize)>,
    ind: (u32, Seq<char>, PropertySet, u32),
) -> Result<(LoadModel, Seq<(Seq<char>, PropertySet, usize)>), u32> {
    let dst_known = seen_find(seen, ind.1, ind.2);
    let m2 = match dst_known {
        Some(_) => m,
        None => LoadModel { funcs: m.funcs.push(ind.1), alts: m.alts.push(Seq::empty()), ..m },
    };
    let seen2 = match dst_known {
        Some(_) => seen,
        None => seen.push((ind.1, ind.2, m.funcs.len() as usize)),
    };
    let dst = match dst_known {
        Some(d) => d,
        None => m.funcs.len() as usize,
    };
    if (ind.0 as int) < m2.funcs.len() {
        Ok(
            (
                LoadModel { edges: m2.edges.push((ind.0 as usize, dst, ind.2)), ..m2 },
                seen2,
            ),
        )
    } else {
        Err(ind.3)
    }
}

/// The state after the first `k` deferred indirect calls.
pub open spec fn indirects_upto(m0: LoadModel, inds: Seq<(u32, Seq<char>, PropertySet, u32)>, k: int) -> Result<
    (LoadModel, Seq<(Seq<char>, PropertySet, usize)>),
    u32,
>
    decreases k,
{
    if k <= 0 {
        Ok((m0, Seq::empty()))
    } else {
        match indirects_upto(m0, inds, k - 1) {
            Err(e) => Err(e),
            Ok(p) => indirect_apply(p.0, p.1, inds[k - 1]),
        }
    }
}

/// Everything the loader builds before the root and sink sets: the scan
/// of the lines followed by the materialization of the deferred indirect
/// calls.
pub open spec fn load_model(lines: Seq<Seq<char>>, limit: u32) -> Result<LoadModel, u32> {
    match scan_upto(lines, processed_count(lines.len() as int, limit)) {
        Err(e) => Err(e),
        Ok(m) => match indirects_upto(m, m.indirects, m.indirects.len() as int) {
            Err(e) => Err(e),
            Ok(p) => Ok(p.0),
        },
    }
}

/// A scan that has failed stays failed however much further it reads.
proof fn lemma_scan_error_sticks(lines: Seq<Seq<char>>, k1: int, k2: int)
    requires
        0 <= k1 <= k2,
        scan_upto(lines, k1) is Err,
    ensures
        scan_upto(lines, k2) == scan_upto(lines, k1),
    decreases k2 - k1,
{
    if k2 > k1 {
        lemma_scan_error_sticks(lines, k1, k2 - 1);
    }
}

/// The deferred indirect calls of the loader, as the model sees them.
pub open spec fn inds_view(s: Seq<(u32, String, PropertySet, u32)>) -> Seq<
    (u32, Seq<char>, PropertySet, u32),
> {
    s.map_values(|t: (u32, String, PropertySet, u32)| (t.0, t.1@, t.2, t.3))
}

/// The dedup table of the loader, as the model sees it.
pub open spec fn seen_view(s: Seq<(String, PropertySet, usize)>) -> Seq<
    (Seq<char>, PropertySet, usize),
> {
    s.map_values(|t: (String, PropertySet, usize)| (t.0@, t.1, t.2))
}

/// The entries of a property table, as the model sees them.
pub open spec fn entries_view(s: Seq<(String, String)>) -> Seq<(Seq<char>, Seq<char>)> {
    s.map_values(|t: (String, String)| (t.0@, t.1@))
}

/// The graph and the pending indirect calls agree with the model state.
pub open spec fn matches_model(
    cg: Callgraph,
    inds: Seq<(u32, String, PropertySet, u32)>,
    m: LoadModel,
) -> bool {
    &&& m.funcs == cg.funcs()
    &&& m.alts == cg.alts()
    &&& m.stems == cg.stems()
    &&& m.props == cg.props()
    &&& m.edges == cg.edges()
    &&& m.indirects == inds_view(inds)
}

/// Scanning past dedup entries that match neither description nor
/// property set does not change the lookup.
proof fn lemma_seen_find_skip(
    seen: Seq<(Seq<char>, PropertySet, usize)>,
    desc: Seq<char>,
    ps: PropertySet,
    i: int,
)
    requires
        0 <= i <= seen.len(),
        forall|k: int| 0 <= k < i ==> !((#[trigger] seen[k]).0 == desc && seen[k].1 == ps),
    ensures
        seen_find(seen, desc, ps) == seen_find(seen.skip(i), desc, ps),
    decreases i,
{
    if i > 0 {
        let rest = seen.drop_first();
        assert(forall|k: int|
            0 <= k < i - 1 ==> !((#[trigger] rest[k]).0 == desc && rest[k].1 == ps));
        lemma_seen_find_skip(rest, desc, ps, i - 1);
        assert(rest.skip(i - 1) =~= seen.skip(i));
    } else {
        assert(seen.skip(0) =~= seen);
    }
}

/// Looks a target description and property set up in the dedup table.
fn seen_lookup(seen: &Vec<(String, PropertySet, usize)>, desc: &String, ps: PropertySet) -> (r:
    Option<usize>)
    ensures
        r == seen_find(seen_view(seen@), desc@, ps),
        r matches Some(d) ==> exists|k: int|
            0 <= k < seen@.len() && (#[trigger] seen@[k]).2 == d,
{
    let n = seen.len();
    let mut i: usize = 0;
    while i < n
        invariant
            n == seen@.len(),
            i <= n,
            forall|k: int|
                0 <= k < i ==> !((#[trigger] seen_view(seen@)[k]).0 == desc@ && seen_view(
                    seen@,
                )[k].1 == ps),
        decreases n - i,
    {
        if seen[i].1 == ps && seen[i].0.eq(desc) {
            proof {
                lemma_seen_find_skip(seen_view(seen@), desc@, ps, i as int);
                assert(seen_view(seen@).skip(i as int)[0] == seen_view(seen@)[i as int]);
            }
            proof {
                assert(seen@[i as int].2 == seen@[i as int].2);
            }
            return Some(seen[i].2);
        }
        i += 1;
    }
    proof {
        lemma_seen_find_skip(seen_view(seen@), desc@, ps, n as int);
        assert(seen_view(seen@).skip(n as int) =~= Seq::<(Seq<char>, PropertySet, usize)>::empty());
    }
    None
}


/// Loads one graph from the lines of a description (without their line
/// terminators), honoring the line limit the way the scan does: a
/// positive limit stops the scan after one more line than the limit.
/// On success the graph holds exactly what the model fold builds,
/// followed by the frozen root and sink sets and their synthetic nodes;
/// on failure nothing is returned but the number and content of the
/// offending line.
pub fn load_graph(lines: &Vec<String>, line_limit: u32) -> (r: Result<Callgraph, LoadError>)
    requires
        lines@.len() <= 0x8000000,
    ensures
        match r {
            Ok(cg) => ({
                &&& cg.wf()
                &&& load_model(lines.deep_view(), line_limit) matches Ok(m) && ({
                    let n0 = m.funcs.len();
                    &&& cg.funcs() == m.funcs.push("<root>"@).push("<sink>"@)
                    &&& cg.alts() == m.alts.push(Seq::<Seq<char>>::empty()).push(
                        Seq::<Seq<char>>::empty(),
                    )
                    &&& cg.stems() == m.stems
                    &&& cg.props() == m.props
                    &&& cg.root_node() == n0
                    &&& cg.sink_node() == n0 + 1
                    &&& cg.root_set() matches Some(rs) && terminal_set_ok(
                        mirror_edges(m.edges),
                        n0 as usize,
                        n0 as usize,
                        rs,
                    ) && ({
                        let redges = rs.map_values(
                            |v: usize| ((n0 as usize), v, PropertySet { all: 0u32, any: 0u32 }),
                        );
                        &&& cg.sink_set() matches Some(ss) && terminal_set_ok(
                            m.edges + redges,
                            (n0 + 1) as usize,
                            (n0 + 1) as usize,
                            ss,
                        ) && cg.edges() == m.edges + redges + ss.map_values(
                            |v: usize| (v, ((n0 + 1) as usize), PropertySet { all: 0u32, any: 0u32 }),
                        )
                    })
                })
            }),
            Err(e) => e matches LoadError::FormatError(ln, _) && load_model(
                lines.deep_view(),
                line_limit,
            ) == Err::<LoadModel, u32>(ln),
        },
{
    let ghost lseq = lines.deep_view();
    let mut cg = Callgraph::new();
    let mut indirects: Vec<(u32, String, PropertySet, u32)> = Vec::new();
    proof {
        assert(matches_model(cg, indirects@, init_model())) by {
            assert(inds_view(indirects@) =~= init_model().indirects);
        }
    }
    let n = lines.len();
    let mut i: usize = 0;
    while i < n
        invariant_except_break
            line_limit > 0 ==> i <= line_limit,
        invariant
            cg.wf(),
            lseq == lines.deep_view(),
            n == lines@.len(),
            n <= 0x8000000,
            i <= n,
            scan_upto(lseq, i as int) matches Ok(m) && matches_model(cg, indirects@, m),
            cg.funcs().len() <= 1 + i,
            cg.edges().len() <= i,
            indirects@.len() <= i,
            cg.root_set() is None,
            cg.sink_set() is None,
            forall|k: int| 0 <= k < indirects@.len() ==> (#[trigger] indirects@[k]).2.wf(),
        ensures
            i == processed_count(n as int, line_limit),
        decreases n - i,
    {
        let ghost m_pre = scan_upto(lseq, i as int)->Ok_0;
        let lineno: u32 = (i + 1) as u32;
        let line_ref = &lines[i];
        let chars = str_to_chars(line_ref.as_str());
        proof {
            assert(lseq[i as int] == lines@[i as int]@);
            assert(chars@ == lseq[i as int]);
        }
        let ghost rec = parse_record(lseq[i as int]);
        let parsed = parse_line(&chars);
        proof {
            assert(scan_upto(lseq, i + 1) == apply_rec(m_pre, rec, (i + 1) as u32));
            assert((i + 1) as u32 == lineno);
        }
        match parsed {
            Parsed::PFunc(id, name) => {
                let count = cg.node_count();
                if (id as usize) != count {
                    proof {
                        assert(apply_rec(m_pre, rec, lineno) is Err);
                        lemma_scan_error_sticks(
                            lseq,
                            i + 1,
                            processed_count(lseq.len() as int, line_limit),
                        );
                    }
                    return Err(LoadError::FormatError(lineno, lines[i].clone()));
                }
                cg.add_function(name.as_str());
                proof {
                    let m2 = apply_rec(m_pre, rec, lineno)->Ok_0;
                    assert(matches_model(cg, indirects@, m2));
                }
            },
            Parsed::PCall(src, dst, ps) => {
                let count = cg.node_count();
                if !((src as usize) < count && (dst as usize) < count) {
                    proof {
                        assert(apply_rec(m_pre, rec, lineno) is Err);
                        lemma_scan_error_sticks(
                            lseq,
                            i + 1,
                            processed_count(lseq.len() as int, line_limit),
                        );
                    }
                    return Err(LoadError::FormatError(lineno, lines[i].clone()));
                }
                cg.add_edge(src as usize, dst as usize, ps);
                proof {
                    let m2 = apply_rec(m_pre, rec, lineno)->Ok_0;
                    assert(matches_model(cg, indirects@, m2));
                }
            },
            Parsed::PAlt(id, name) => {
                let count = cg.node_count();
                if !((id as usize) < count) {
                    proof {
                        assert(apply_rec(m_pre, rec, lineno) is Err);
                        lemma_scan_error_sticks(
                            lseq,
                            i + 1,
                            processed_count(lseq.len() as int, line_limit),
                        );
                    }
                    return Err(LoadError::FormatError(lineno, lines[i].clone()));
                }
                cg.add_unmangled_name(id as usize, name.as_str());
                proof {
                    let m2 = apply_rec(m_pre, rec, lineno)->Ok_0;
                    assert(matches_model(cg, indirects@, m2));
                }
            },
            Parsed::PInd(src, desc, ps) => {
                let ghost pre_inds = indirects@;
                indirects.push((src, desc, ps, lineno));
                proof {
                    let m2 = apply_rec(m_pre, rec, lineno)->Ok_0;
                    assert(inds_view(indirects@) =~= inds_view(pre_inds).push(
                        (src, indirects@[pre_inds.len() as int].1@, ps, lineno),
                    ));
                    assert(matches_model(cg, indirects@, m2));
                }
            },
            Parsed::PTable(text) => {
                match json_prop_entries(text.as_str()) {
                    Err(_) => {
                        proof {
                            assert(apply_rec(m_pre, rec, lineno) is Err);
                            lemma_scan_error_sticks(
                                lseq,
                                i + 1,
                                processed_count(lseq.len() as int, line_limit),
                            );
                        }
                        return Err(LoadError::FormatError(lineno, lines[i].clone()));
                    },
                    Ok(entries) => {
                        let ghost eview = entries_view(entries@);
                        proof {
                            let es0 = prop_entries_of(text@)->Ok_0;
                            assert forall|t: int| 0 <= t < eview.len() implies eview[t]
                                == es0[t] by {
                                assert(entries@[t].0@ == es0[t].0);
                                assert(entries@[t].1@ == es0[t].1);
                            }
                            assert(eview =~= es0);
                        }
                        let em = entries.len();
                        let mut ek: usize = 0;
                        let mut ok = true;
                        proof {
                            assert(eview.skip(0) =~= eview);
                        }
                        while ek < em && ok
                            invariant
                                cg.wf(),
                                em == entries@.len(),
                                ek <= em,
                                eview == entries_view(entries@),
                                ok ==> merge_entries(m_pre.props, eview) == merge_entries(
                                    cg.props(),
                                    eview.skip(ek as int),
                                ),
                                !ok ==> merge_entries(m_pre.props, eview) is Err,
                                cg.funcs() == m_pre.funcs,
                                cg.alts() == m_pre.alts,
                                cg.stems() == m_pre.stems,
                                cg.edges() == m_pre.edges,
                                cg.root_set() is None,
                                cg.sink_set() is None,
                            decreases em - ek, (if ok { 1int } else { 0int }),
                        {
                            let key = str_to_chars(entries[ek].0.as_str());
                            let ghost es = eview.skip(ek as int);
                            proof {
                                assert(es[0] == eview[ek as int]);
                                assert(eview[ek as int] == (
                                    entries@[ek as int].0@,
                                    entries@[ek as int].1@,
                                ));
                                assert(key@.subrange(0, key@.len() as int) =~= key@);
                            }
                            match parse_u32(&key, 0, key.len()) {
                                Some(bit) => {
                                    let ghost props_pre = cg.props();
                                    cg.upsert_property(bit, entries[ek].1.clone());
                                    proof {
                                        assert(pnum(es[0].0) == Some(bit));
                                        assert(merge_entries(props_pre, es) == merge_entries(
                                            props_upsert(props_pre, bit, es[0].1),
                                            es.drop_first(),
                                        ));
                                        assert(es.drop_first() =~= eview.skip(ek + 1));
                                        assert(cg.props() == props_upsert(
                                            props_pre,
                                            bit,
                                            es[0].1,
                                        ));
                                    }
                                },
                                None => {
                                    proof {
                                        assert(pnum(es[0].0) is None);
                                        assert(merge_entries(cg.props(), es) is Err);
                                    }
                                    ok = false;
                                },
                            }
                            ek += 1;
                        }
                        if !ok {
                            proof {
                                assert(apply_rec(m_pre, rec, lineno) is Err);
                                lemma_scan_error_sticks(
                                    lseq,
                                    i + 1,
                                    processed_count(lseq.len() as int, line_limit),
                                );
                            }
                            return Err(LoadError::FormatError(lineno, lines[i].clone()));
                        }
                        proof {
                            assert(eview.skip(em as int) =~= Seq::<(Seq<char>, Seq<char>)>::empty());
                            assert(merge_entries(m_pre.props, eview) == Ok::<
                                Seq<(u32, Seq<char>)>,
                                (),
                            >(cg.props()));
                            let m2 = apply_rec(m_pre, rec, lineno)->Ok_0;
                            assert(matches_model(cg, indirects@, m2));
                        }
                    },
                }
            },
            Parsed::PSkip => {
                proof {
                    let m2 = apply_rec(m_pre, rec, lineno)->Ok_0;
                    assert(matches_model(cg, indirects@, m2));
                }
            },
            Parsed::PBad => {
                proof {
                    assert(apply_rec(m_pre, rec, lineno) is Err);
                    lemma_scan_error_sticks(
                        lseq,
                        i + 1,
                        processed_count(lseq.len() as int, line_limit),
                    );
                }
                return Err(LoadError::FormatError(lineno, lines[i].clone()));
            },
        }
        i += 1;
        if line_limit > 0 && i > line_limit as usize {
            break ;
        }
    }
    // Materialize the deferred indirect-call targets, deduplicated by
    // description text and property set.
    let ghost m_scan = scan_upto(lseq, processed_count(lseq.len() as int, line_limit))->Ok_0;
    let nind = indirects.len();
    let mut seen: Vec<(String, PropertySet, usize)> = Vec::new();
    let mut j: usize = 0;
    proof {
        assert(m_scan.indirects == inds_view(indirects@));
        assert(seen_view(seen@) =~= Seq::<(Seq<char>, PropertySet, usize)>::empty());
    }
    while j < nind
        invariant
            cg.wf(),
            lseq == lines.deep_view(),
            n == lines@.len(),
            n <= 0x8000000,
            nind == indirects@.len() <= n,
            j <= nind,
            scan_upto(lseq, processed_count(lseq.len() as int, line_limit)) == Ok::<
                LoadModel,
                u32,
            >(m_scan),
            m_scan.indirects == inds_view(indirects@),
            indirects_upto(m_scan, m_scan.indirects, j as int) matches Ok(pr) && matches_model(
                cg,
                indirects@,
                pr.0,
            ) && pr.1 == seen_view(seen@),
            cg.funcs().len() <= 1 + n + j,
            cg.edges().len() <= n + j,
            cg.root_set() is None,
            cg.sink_set() is None,
            forall|k: int| 0 <= k < indirects@.len() ==> (#[trigger] indirects@[k]).2.wf(),
            forall|k: int| 0 <= k < seen@.len() ==> (#[trigger] seen@[k]).2 < cg.funcs().len(),
        decreases nind - j,
    {
        let ghost pr = indirects_upto(m_scan, m_scan.indirects, j as int)->Ok_0;
        let src = indirects[j].0;
        let ps = indirects[j].2;
        let ln = indirects[j].3;
        let desc = indirects[j].1.clone();
        proof {
            assert(inds_view(indirects@)[j as int] == (src, desc@, ps, ln));
            assert(indirects_upto(m_scan, m_scan.indirects, j + 1) == indirect_apply(
                pr.0,
                pr.1,
                inds_view(indirects@)[j as int],
            ));
        }
        let found = seen_lookup(&seen, &desc, ps);
        let dst: usize;
        match found {
            Some(d) => {
                dst = d;
            },
            None => {
                let d = cg.add_function(desc.as_str());
                let ghost seen_pre = seen@;
                seen.push((desc, ps, d));
                proof {
                    assert(seen_view(seen@) =~= seen_view(seen_pre).push(
                        (seen@[seen_pre.len() as int].0@, ps, d),
                    ));
                }
                dst = d;
            },
        }
        if !((src as usize) < cg.node_count()) {
            proof {
                assert(indirect_apply(pr.0, pr.1, inds_view(indirects@)[j as int]) == Err::<
                    (LoadModel, Seq<(Seq<char>, PropertySet, usize)>),
                    u32,
                >(ln));
                lemma_ind_error_sticks(
                    m_scan,
                    m_scan.indirects,
                    j + 1,
                    m_scan.indirects.len() as int,
                );
            }
            return Err(
                LoadError::FormatError(ln, String::from_str("indirect call source is not a function")),
            );
        }
        cg.add_edge(src as usize, dst, ps);
        proof {
            let pr2 = indirects_upto(m_scan, m_scan.indirects, j + 1)->Ok_0;
            assert(matches_model(cg, indirects@, pr2.0));
        }
        j += 1;
    }
    let ghost m_final = indirects_upto(m_scan, m_scan.indirects, nind as int)->Ok_0.0;
    proof {
        assert(load_model(lseq, line_limit) == Ok::<LoadModel, u32>(m_final));
        assert(cg.funcs().len() < u32::MAX as usize);
        assert(cg.edges().len() + cg.funcs().len() < u32::MAX as usize);
    }
    // Compute and freeze the root and sink sets.
    let _roots = cg.roots();
    let _sinks = cg.sinks();
    proof {
        let m = m_final;
        let n0 = m.funcs.len();
        assert(cg.funcs() =~= m.funcs.push("<root>"@).push("<sink>"@));
        assert(cg.alts() =~~= m.alts.push(Seq::<Seq<char>>::empty()).push(
            Seq::<Seq<char>>::empty(),
        ));
        let rs = cg.root_set()->0;
        let ss = cg.sink_set()->0;
        let redges = rs.map_values(
            |v: usize| ((n0 as usize), v, PropertySet { all: 0u32, any: 0u32 }),
        );
        let sedges = ss.map_values(
            |v: usize| (v, ((n0 + 1) as usize), PropertySet { all: 0u32, any: 0u32 }),
        );
        assert(cg.edges() =~= m.edges + redges + sedges);
    }
    Ok(cg)
}

/// A failed materialization stays failed.
proof fn lemma_ind_error_sticks(
    m0: LoadModel,
    inds: Seq<(u32, Seq<char>, PropertySet, u32)>,
    k1: int,
    k2: int,
)
    requires
        0 <= k1 <= k2,
        indirects_upto(m0, inds, k1) is Err,
    ensures
        indirects_upto(m0, inds, k2) == indirects_upto(m0, inds, k1),
    decreases k2 - k1,
{
    if k2 > k1 {
        lemma_ind_error_sticks(m0, inds, k1, k2 - 1);
    }
}


/// Looking a key up in a grown dedup table: an existing answer is kept,
/// the freshly appended entry answers for its own key, and other keys
/// stay unanswered.
proof fn lemma_seen_find_push(
    seen: Seq<(Seq<char>, PropertySet, usize)>,
    x: (Seq<char>, PropertySet, usize),
    desc: Seq<char>,
    ps: PropertySet,
)
    ensures
        seen_find(seen, desc, ps) is Some ==> seen_find(seen.push(x), desc, ps) == seen_find(
            seen,
            desc,
            ps,
        ),
        seen_find(seen, desc, ps) is None && x.0 == desc && x.1 == ps ==> seen_find(
            seen.push(x),
            desc,
            ps,
        ) == Some(x.2),
        seen_find(seen, desc, ps) is None && !(x.0 == desc && x.1 == ps) ==> seen_find(
            seen.push(x),
            desc,
            ps,
        ) is None,
    decreases seen.len(),
{
    if seen.len() > 0 {
        assert(seen.push(x).drop_first() =~= seen.drop_first().push(x));
        assert(seen.push(x)[0] == seen[0]);
        lemma_seen_find_push(seen.drop_first(), x, desc, ps);
    } else {
        assert(seen.push(x)[0] == x);
        assert(seen.push(x).drop_first() =~= Seq::<(Seq<char>, PropertySet, usize)>::empty());
        assert(seen_find(Seq::<(Seq<char>, PropertySet, usize)>::empty(), desc, ps) is None);
    }
}

/// A successful lookup answers with the node of an entry carrying
/// exactly the queried key.
pub(crate) proof fn lemma_seen_find_entry(
    seen: Seq<(Seq<char>, PropertySet, usize)>,
    desc: Seq<char>,
    ps: PropertySet,
)
    requires
        seen_find(seen, desc, ps) is Some,
    ensures
        exists|i: int|
            0 <= i < seen.len() && (#[trigger] seen[i]) == (
                desc,
                ps,
                seen_find(seen, desc, ps)->0,
            ),
    decreases seen.len(),
{
    if seen.len() > 0 {
        if seen[0].0 == desc && seen[0].1 == ps {
            assert(seen[0] == (desc, ps, seen_find(seen, desc, ps)->0));
        } else {
            lemma_seen_find_entry(seen.drop_first(), desc, ps);
            let i = choose|i: int|
                0 <= i < seen.drop_first().len() && (#[trigger] seen.drop_first()[i]) == (
                    desc,
                    ps,
                    seen_find(seen.drop_first(), desc, ps)->0,
                );
            assert(seen[i + 1] == (desc, ps, seen_find(seen, desc, ps)->0));
        }
    }
}

/// What the materialization fold builds, record by record: one more edge
/// per record, aimed at the node the dedup table answers for the
/// record's description and property set; table entries carry distinct
/// nodes, all of them real.
pub(crate) proof fn lemma_indirects_fold(
    m0: LoadModel,
    inds: Seq<(u32, Seq<char>, PropertySet, u32)>,
    k: int,
)
    requires
        0 <= k <= inds.len(),
        m0.funcs.len() + inds.len() <= usize::MAX,
        indirects_upto(m0, inds, k) is Ok,
    ensures
        ({
            let m = indirects_upto(m0, inds, k)->Ok_0.0;
            let seen = indirects_upto(m0, inds, k)->Ok_0.1;
            &&& m.funcs.len() <= m0.funcs.len() + k
            &&& m.edges.len() == m0.edges.len() + k
            &&& forall|j: int|
                0 <= j < k ==> #[trigger] seen_find(seen, inds[j].1, inds[j].2) is Some
            &&& forall|j: int|
                0 <= j < k ==> #[trigger] m.edges[m0.edges.len() + j] == (
                    inds[j].0 as usize,
                    seen_find(seen, inds[j].1, inds[j].2)->0,
                    inds[j].2,
                )
            &&& forall|a: int, b: int|
                0 <= a < b < seen.len() ==> (#[trigger] seen[a]).2 != (#[trigger] seen[b]).2
            &&& forall|a: int| 0 <= a < seen.len() ==> (#[trigger] seen[a]).2 < m.funcs.len()
        }),
    decreases k,
{
    if k > 0 {
        assert(indirects_upto(m0, inds, k - 1) is Ok);
        lemma_indirects_fold(m0, inds, k - 1);
        let prev = indirects_upto(m0, inds, k - 1)->Ok_0;
        let m_prev = prev.0;
        let seen_prev = prev.1;
        let ind = inds[k - 1];
        let m = indirects_upto(m0, inds, k)->Ok_0.0;
        let seen = indirects_upto(m0, inds, k)->Ok_0.1;
        match seen_find(seen_prev, ind.1, ind.2) {
            Some(d) => {
                assert(seen == seen_prev);
                assert(m.edges == m_prev.edges.push((ind.0 as usize, d, ind.2)));
                assert forall|j: int|
                    0 <= j < k implies #[trigger] m.edges[m0.edges.len() + j] == (
                    inds[j].0 as usize,
                    seen_find(seen, inds[j].1, inds[j].2)->0,
                    inds[j].2,
                ) by {
                    if j < k - 1 {
                        assert(m.edges[m0.edges.len() + j] == m_prev.edges[m0.edges.len() + j]);
                    }
                }
            },
            None => {
                let t = m_prev.funcs.len() as usize;
                let x = (ind.1, ind.2, t);
                assert(m_prev.funcs.len() <= usize::MAX);
                assert(t == m_prev.funcs.len());
                assert(seen == seen_prev.push(x));
                assert(seen[seen.len() - 1] == x);
                assert(m.funcs.len() == m_prev.funcs.len() + 1);
                assert(m.edges == m_prev.edges.push((ind.0 as usize, t, ind.2)));
                assert forall|j: int|
                    0 <= j < k implies #[trigger] seen_find(seen, inds[j].1, inds[j].2)
                    is Some by {
                    lemma_seen_find_push(seen_prev, x, inds[j].1, inds[j].2);
                }
                assert forall|j: int|
                    0 <= j < k implies #[trigger] m.edges[m0.edges.len() + j] == (
                    inds[j].0 as usize,
                    seen_find(seen, inds[j].1, inds[j].2)->0,
                    inds[j].2,
                ) by {
                    lemma_seen_find_push(seen_prev, x, inds[j].1, inds[j].2);
                    if j < k - 1 {
                        assert(m.edges[m0.edges.len() + j] == m_prev.edges[m0.edges.len() + j]);
                    }
                }
                assert forall|a: int, b: int|
                    0 <= a < b < seen.len() implies (#[trigger] seen[a]).2 != (
                #[trigger] seen[b]).2 by {
                    if b == seen.len() - 1 {
                        assert(seen[a] == seen_prev[a]);
                        assert(seen_prev[a].2 < m_prev.funcs.len());
                    } else {
                        assert(seen[a] == seen_prev[a]);
                        assert(seen[b] == seen_prev[b]);
                    }
                }
            },
        }
    }
}

} // verus!
