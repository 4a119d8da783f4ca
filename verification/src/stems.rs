//! Stems: the bare identifier portion of a human-readable function name,
//! obtained by truncating at the first parenthesis. Stems group the
//! overloads and signatures of one named function in the name index.

use vstd::prelude::*;

use crate::text::find_char;
use crate::text::str_to_chars;
use vstd::string::StrSliceExecFns;

verus! {

/// The stem of a name: everything before the first `(`, or the whole name
/// when it has no parenthesis.
pub open spec fn stem_of(s: Seq<char>) -> Seq<char> {
    if exists|i: int| 0 <= i < s.len() && s[i] == '(' {
        let i = choose|i: int|
            0 <= i < s.len() && s[i] == '(' && forall|j: int| 0 <= j < i ==> s[j] != '(';
        s.subrange(0, i)
    } else {
        s
    }
}

/// There is a unique first position of `(` when one exists at all.
proof fn lemma_first_paren(s: Seq<char>, i: int)
    requires
        0 <= i < s.len(),
        s[i] == '(',
        forall|j: int| 0 <= j < i ==> s[j] != '(',
    ensures
        stem_of(s) == s.subrange(0, i),
{
    let w = choose|w: int|
        0 <= w < s.len() && s[w] == '(' && forall|j: int| 0 <= j < w ==> s[j] != '(';
    assert(!(w < i) && !(i < w));
}

/// The stem of `raw`, as a slice of it.
pub fn stem(raw: &str) -> (r: &str)
    ensures
        r@ == stem_of(raw@),
{
    let chars = str_to_chars(raw);
    match find_char(&chars, 0, '(') {
        Some(i) => {
            proof {
                lemma_first_paren(raw@, i as int);
            }
            raw.substring_char(0, i)
        },
        None => {
            proof {
                assert(forall|i: int| 0 <= i < raw@.len() ==> raw@[i] != '(');
            }
            raw
        },
    }
}

/// The name index after registering node `id` under stem `st`: the id is
/// appended to the stem's entry, a new entry being added at the end for a
/// stem not seen before.
pub open spec fn stems_add(
    table: Seq<(Seq<char>, Seq<usize>)>,
    st: Seq<char>,
    id: usize,
) -> Seq<(Seq<char>, Seq<usize>)>
    decreases table.len(),
{
    if table.len() == 0 {
        seq![(st, seq![id])]
    } else if table[0].0 == st {
        seq![(table[0].0, table[0].1.push(id))] + table.drop_first()
    } else {
        seq![table[0]] + stems_add(table.drop_first(), st, id)
    }
}

} // verus!
