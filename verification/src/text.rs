//! Text helpers shared by the parser, the name tables and the describers:
//! conversion between strings and character vectors, substring search, and
//! decimal parsing and formatting.

use vstd::prelude::*;

verus! {

/// A decimal digit character.
pub open spec fn is_digit(c: char) -> bool {
    48 <= c as u32 <= 57
}

/// The numeric value of a decimal digit character.
pub open spec fn digit_val(c: char) -> nat {
    (c as u32 - 48) as nat
}

/// The digit character for a value below ten.
pub open spec fn digit_char(d: nat) -> char {
    ((48 + d) as u8) as char
}

/// Every character of `s` is a decimal digit.
pub open spec fn all_digits(s: Seq<char>) -> bool {
    forall|i: int| 0 <= i < s.len() ==> is_digit(#[trigger] s[i])
}

/// The value of a digit string read in base ten.
pub open spec fn dec_value(s: Seq<char>) -> nat
    decreases s.len(),
{
    if s.len() == 0 {
        0
    } else {
        dec_value(s.drop_last()) * 10 + digit_val(s.last())
    }
}

/// The canonical decimal rendering of `n`: no leading zeros, except that
/// zero itself is the single digit `0`.
pub open spec fn dec_repr(n: nat) -> Seq<char>
    decreases n,
{
    if n < 10 {
        seq![digit_char(n)]
    } else {
        dec_repr(n / 10).push(digit_char(n % 10))
    }
}

/// `needle` occurs in `hay` starting at position `i`.
pub open spec fn occurs_at(hay: Seq<char>, needle: Seq<char>, i: int) -> bool {
    0 <= i && i + needle.len() <= hay.len() && hay.subrange(i, i + needle.len()) == needle
}

/// `needle` occurs somewhere in `hay`.
pub open spec fn contains_seq(hay: Seq<char>, needle: Seq<char>) -> bool {
    exists|i: int| occurs_at(hay, needle, i)
}

/// The characters of a string, in order.
pub fn str_to_chars(s: &str) -> (v: Vec<char>)
    ensures
        v@ == s@,
{
    let mut v: Vec<char> = Vec::new();
    for c in it: s.chars()
        invariant
            it.seq() == s@,
            v@ == it.seq().subrange(0, it.index() as int),
    {
        v.push(c);
    }
    assert(v@ =~= s@);
    v
}

/// Relies on String::push: appends the given character to the end of the
/// string.
#[verifier::external_body]
fn push_char(s: &mut String, c: char)
    ensures
        final(s)@ == old(s)@.push(c),
{
    s.push(c);
}

/// A string holding exactly the characters of `v`.
pub fn chars_to_string(v: &Vec<char>) -> (s: String)
    ensures
        s@ == v@,
{
    let mut s = String::new();
    let n = v.len();
    let mut i: usize = 0;
    while i < n
        invariant
            n == v.len(),
            i <= n,
            s@ == v@.subrange(0, i as int),
        decreases n - i,
    {
        push_char(&mut s, v[i]);
        i += 1;
        assert(s@ =~= v@.subrange(0, i as int));
    }
    assert(s@ =~= v@);
    s
}

/// The characters of `v` from `from` (inclusive) to `to` (exclusive).
pub fn chars_range(v: &Vec<char>, from: usize, to: usize) -> (r: Vec<char>)
    requires
        from <= to <= v@.len(),
    ensures
        r@ == v@.subrange(from as int, to as int),
{
    let mut r: Vec<char> = Vec::new();
    let mut i: usize = from;
    while i < to
        invariant
            from <= i <= to <= v@.len(),
            r@ == v@.subrange(from as int, i as int),
        decreases to - i,
    {
        r.push(v[i]);
        i += 1;
        assert(r@ =~= v@.subrange(from as int, i as int));
    }
    r
}

/// The substring of `s` from `from` (inclusive) to `to` (exclusive), as a
/// fresh string.
pub fn string_range(v: &Vec<char>, from: usize, to: usize) -> (s: String)
    requires
        from <= to <= v@.len(),
    ensures
        s@ == v@.subrange(from as int, to as int),
{
    let r = chars_range(v, from, to);
    chars_to_string(&r)
}

/// Appends every character of `src` to `dst`.
pub fn append_chars(dst: &mut Vec<char>, src: &Vec<char>)
    ensures
        final(dst)@ == old(dst)@ + src@,
{
    let n = src.len();
    let mut i: usize = 0;
    while i < n
        invariant
            n == src@.len(),
            i <= n,
            dst@ == old(dst)@ + src@.subrange(0, i as int),
        decreases n - i,
    {
        dst.push(src[i]);
        i += 1;
        assert(dst@ =~= old(dst)@ + src@.subrange(0, i as int));
    }
    assert(dst@ =~= old(dst)@ + src@);
}

/// The first position at or after `from` where `c` occurs in `v`, if any.
pub fn find_char(v: &Vec<char>, from: usize, c: char) -> (r: Option<usize>)
    requires
        from <= v@.len(),
    ensures
        match r {
            Some(i) => from <= i < v@.len() && v@[i as int] == c && forall|j: int|
                from <= j < i ==> v@[j] != c,
            None => forall|j: int| from <= j < v@.len() ==> v@[j] != c,
        },
{
    let n = v.len();
    let mut i: usize = from;
    while i < n
        invariant
            from <= i <= n == v@.len(),
            forall|j: int| from <= j < i ==> v@[j] != c,
        decreases n - i,
    {
        if v[i] == c {
            return Some(i);
        }
        i += 1;
    }
    None
}

/// Whether `needle` occurs as a contiguous run inside `hay`.
pub fn contains_chars(hay: &Vec<char>, needle: &Vec<char>) -> (b: bool)
    ensures
        b == contains_seq(hay@, needle@),
{
    let hn = hay.len();
    let nn = needle.len();
    if nn > hn {
        assert(!contains_seq(hay@, needle@)) by {
            assert(forall|i: int| !occurs_at(hay@, needle@, i));
        }
        return false;
    }
    let last = hn - nn;
    let mut i: usize = 0;
    loop
        invariant
            nn == needle@.len() <= hn == hay@.len(),
            last == hn - nn,
            i <= last + 1,
            forall|k: int| 0 <= k < i ==> !occurs_at(hay@, needle@, k),
        decreases last + 1 - i,
    {
        if i > last {
            assert(forall|k: int| !occurs_at(hay@, needle@, k));
            return false;
        }
        let mut j: usize = 0;
        let mut hit = true;
        while j < nn && hit
            invariant
                nn == needle@.len() <= hn == hay@.len(),
                i <= last == hn - nn,
                j <= nn,
                hit ==> forall|t: int| 0 <= t < j ==> hay@[i + t] == needle@[t],
                !hit ==> j < nn && hay@[i + j] != needle@[j as int],
            decreases nn - j, (if hit { 1int } else { 0int }),
        {
            if hay[i + j] != needle[j] {
                hit = false;
            } else {
                j += 1;
            }
        }
        if hit {
            assert(occurs_at(hay@, needle@, i as int)) by {
                assert(hay@.subrange(i as int, i + needle@.len()) =~= needle@);
            }
            return true;
        }
        proof {
            if occurs_at(hay@, needle@, i as int) {
                assert(hay@.subrange(i as int, i + needle@.len()) == needle@);
                assert(forall|t: int|
                    0 <= t < needle@.len() ==> hay@[i + t] == #[trigger] needle@[t]) by {
                    assert(forall|t: int|
                        0 <= t < needle@.len() ==> needle@[t] == hay@.subrange(
                            i as int,
                            i + needle@.len(),
                        )[t]);
                }
                assert(false);
            }
            assert(i < last + 1);
        }
        i += 1;
    }
}

/// A field separator of the input format.
pub open spec fn is_space(c: char) -> bool {
    c == ' ' || c == '\t'
}

/// The first position at or after `i` where `c` stands, or the length.
pub open spec fn find_from(s: Seq<char>, i: int, c: char) -> int
    decreases s.len() - i,
    when 0 <= i <= s.len()
{
    if i >= s.len() {
        s.len() as int
    } else if s[i] == c {
        i
    } else {
        find_from(s, i + 1, c)
    }
}

/// The first non-separator position at or after `i`, or the length.
pub open spec fn skip_spaces_spec(s: Seq<char>, i: int) -> int
    decreases s.len() - i,
    when 0 <= i <= s.len()
{
    if i >= s.len() {
        s.len() as int
    } else if !is_space(s[i]) {
        i
    } else {
        skip_spaces_spec(s, i + 1)
    }
}

/// The first separator position at or after `i`, or the length.
pub open spec fn token_end_spec(s: Seq<char>, i: int) -> int
    decreases s.len() - i,
    when 0 <= i <= s.len()
{
    if i >= s.len() {
        s.len() as int
    } else if is_space(s[i]) {
        i
    } else {
        token_end_spec(s, i + 1)
    }
}

/// Finds `c` at or after `from`.
pub fn find_from_at(v: &Vec<char>, from: usize, c: char) -> (r: usize)
    requires
        from <= v@.len(),
    ensures
        r == find_from(v@, from as int, c),
        from <= r <= v@.len(),
{
    let n = v.len();
    let mut i: usize = from;
    while i < n
        invariant
            from <= i <= n == v@.len(),
            find_from(v@, from as int, c) == find_from(v@, i as int, c),
        decreases n - i,
    {
        if v[i] == c {
            return i;
        }
        i += 1;
    }
    n
}

/// Skips separators at or after `from`.
pub fn skip_spaces_at(v: &Vec<char>, from: usize) -> (r: usize)
    requires
        from <= v@.len(),
    ensures
        r == skip_spaces_spec(v@, from as int),
        from <= r <= v@.len(),
{
    let n = v.len();
    let mut i: usize = from;
    while i < n
        invariant
            from <= i <= n == v@.len(),
            skip_spaces_spec(v@, from as int) == skip_spaces_spec(v@, i as int),
        decreases n - i,
    {
        if !(v[i] == ' ' || v[i] == '\t') {
            return i;
        }
        i += 1;
    }
    n
}

/// Finds the separator ending the token that starts at `from`.
pub fn token_end_at(v: &Vec<char>, from: usize) -> (r: usize)
    requires
        from <= v@.len(),
    ensures
        r == token_end_spec(v@, from as int),
        from <= r <= v@.len(),
{
    let n = v.len();
    let mut i: usize = from;
    while i < n
        invariant
            from <= i <= n == v@.len(),
            token_end_spec(v@, from as int) == token_end_spec(v@, i as int),
        decreases n - i,
    {
        if v[i] == ' ' || v[i] == '\t' {
            return i;
        }
        i += 1;
    }
    n
}

/// `skip_spaces_spec` lands on the first non-separator.
pub proof fn lemma_skip_spaces_first(s: Seq<char>, i: int)
    requires
        0 <= i <= s.len(),
    ensures
        i <= skip_spaces_spec(s, i) <= s.len(),
        skip_spaces_spec(s, i) < s.len() ==> !is_space(s[skip_spaces_spec(s, i)]),
        forall|j: int| i <= j < skip_spaces_spec(s, i) ==> is_space(s[j]),
    decreases s.len() - i,
{
    if i < s.len() && is_space(s[i]) {
        lemma_skip_spaces_first(s, i + 1);
    }
}

/// `token_end_spec` lands on the first separator, so a token starting on
/// a non-separator is nonempty.
pub proof fn lemma_token_end_first(s: Seq<char>, i: int)
    requires
        0 <= i <= s.len(),
    ensures
        i <= token_end_spec(s, i) <= s.len(),
        token_end_spec(s, i) < s.len() ==> is_space(s[token_end_spec(s, i)]),
        forall|j: int| i <= j < token_end_spec(s, i) ==> !is_space(s[j]),
        i < s.len() && !is_space(s[i]) ==> token_end_spec(s, i) > i,
    decreases s.len() - i,
{
    if i < s.len() && !is_space(s[i]) {
        lemma_token_end_first(s, i + 1);
    }
}

/// Whether two character vectors hold the same characters.
pub fn chars_eq(a: &Vec<char>, b: &Vec<char>) -> (r: bool)
    ensures
        r == (a@ == b@),
{
    if a.len() != b.len() {
        return false;
    }
    let n = a.len();
    let mut i: usize = 0;
    while i < n
        invariant
            n == a@.len() == b@.len(),
            i <= n,
            forall|j: int| 0 <= j < i ==> a@[j] == b@[j],
        decreases n - i,
    {
        if a[i] != b[i] {
            return false;
        }
        i += 1;
    }
    proof {
        assert(a@ =~= b@);
    }
    true
}

/// The value of a digit prefix never exceeds the value of the whole digit
/// string.
proof fn lemma_dec_value_prefix(s: Seq<char>, i: int)
    requires
        0 <= i <= s.len(),
    ensures
        dec_value(s.subrange(0, i)) <= dec_value(s),
    decreases s.len() - i,
{
    if i == s.len() {
        assert(s.subrange(0, i) =~= s);
    } else {
        let t = s.subrange(0, i + 1);
        assert(t.drop_last() =~= s.subrange(0, i));
        assert(dec_value(s.subrange(0, i)) * 10 + digit_val(t.last()) == dec_value(t));
        assert(dec_value(s.subrange(0, i)) <= dec_value(t)) by (nonlinear_arith)
            requires
                dec_value(t) == dec_value(s.subrange(0, i)) * 10 + digit_val(t.last()),
        ;
        lemma_dec_value_prefix(s, i + 1);
    }
}

/// Parses the characters of `v` between `from` and `to` as an unsigned
/// decimal number: succeeds exactly on a nonempty run of digits whose value
/// fits in 32 bits.
pub fn parse_u32(v: &Vec<char>, from: usize, to: usize) -> (r: Option<u32>)
    requires
        from <= to <= v@.len(),
    ensures
        ({
            let s = v@.subrange(from as int, to as int);
            match r {
                Some(n) => to > from && all_digits(s) && n == dec_value(s),
                None => !(to > from && all_digits(s) && dec_value(s) <= u32::MAX),
            }
        }),
{
    let ghost s = v@.subrange(from as int, to as int);
    if from == to {
        return None;
    }
    let mut acc: u32 = 0;
    let mut i: usize = from;
    while i < to
        invariant
            from <= i <= to <= v@.len(),
            s == v@.subrange(from as int, to as int),
            all_digits(s.subrange(0, i - from)),
            acc == dec_value(s.subrange(0, i - from)),
        decreases to - i,
    {
        let c = v[i];
        let u = c as u32;
        if u < 48 || u > 57 {
            proof {
                assert(s[i - from] == v@[i as int]);
                assert(!is_digit(s[i - from]));
            }
            return None;
        }
        let d = u - 48;
        let ghost pre = s.subrange(0, i - from);
        let ghost cur = s.subrange(0, i + 1 - from);
        proof {
            assert(cur.drop_last() =~= pre);
            assert(cur.last() == v@[i as int]);
        }
        let step = match acc.checked_mul(10) {
            Some(x) => x.checked_add(d),
            None => None,
        };
        match step {
            Some(x) => {
                acc = x;
            },
            None => {
                proof {
                    assert(dec_value(cur) == dec_value(pre) * 10 + digit_val(cur.last()));
                    assert(dec_value(cur) > u32::MAX);
                    lemma_dec_value_prefix(s, i + 1 - from);
                }
                return None;
            },
        }
        i += 1;
    }
    proof {
        assert(s.subrange(0, to - from) =~= s);
    }
    Some(acc)
}

/// The canonical decimal rendering has no digit below one in front, and
/// reading it back yields the number itself.
pub(crate) proof fn lemma_dec_repr_value(n: nat)
    ensures
        dec_repr(n).len() >= 1,
        all_digits(dec_repr(n)),
        dec_value(dec_repr(n)) == n,
    decreases n,
{
    if n < 10 {
        let s = dec_repr(n);
        assert(s =~= seq![digit_char(n)]);
        assert(s.drop_last() =~= Seq::<char>::empty());
        assert(digit_char(n) as u32 == 48 + n);
        assert(digit_val(digit_char(n)) == n);
        assert(s.last() == digit_char(n));
        assert(dec_value(Seq::<char>::empty()) == 0);
        assert(dec_value(s) == dec_value(s.drop_last()) * 10 + digit_val(s.last()));
    } else {
        lemma_dec_repr_value(n / 10);
        let s = dec_repr(n);
        assert(s.drop_last() =~= dec_repr(n / 10));
        assert(s.last() == digit_char(n % 10));
        assert(digit_val(digit_char(n % 10)) == n % 10);
        assert((n / 10) * 10 + n % 10 == n) by (nonlinear_arith);
        assert(forall|i: int| 0 <= i < s.len() ==> is_digit(#[trigger] s[i])) by {
            assert(forall|i: int|
                0 <= i < s.len() - 1 ==> s[i] == #[trigger] dec_repr(n / 10)[i]);
            assert(is_digit(s[s.len() - 1]));
        }
    }
}

/// The decimal rendering of `n`, as characters.
pub fn u32_to_chars(n: u32) -> (v: Vec<char>)
    ensures
        v@ == dec_repr(n as nat),
        dec_value(v@) == n as nat,
        all_digits(v@),
{
    proof {
        lemma_dec_repr_value(n as nat);
    }
    let mut rev: Vec<char> = Vec::new();
    let mut m: u32 = n;
    loop
        invariant
            dec_repr(n as nat) == dec_repr(m as nat) + rev@.reverse(),
            dec_value(dec_repr(n as nat)) == n as nat,
            all_digits(dec_repr(n as nat)),
        decreases m,
    {
        let d = m % 10;
        let c = (48 + d as u8 as u32) as u8 as char;
        assert(c == digit_char((m % 10) as nat));
        if m < 10 {
            let ghost prev = rev@;
            rev.push(c);
            let mut v: Vec<char> = Vec::new();
            let mut i: usize = rev.len();
            proof {
                assert(dec_repr(m as nat) =~= seq![digit_char(m as nat)]);
                assert(seq![digit_char(m as nat)] + prev.reverse() =~= rev@.reverse());
            }
            while i > 0
                invariant
                    i <= rev@.len(),
                    v@ == rev@.reverse().subrange(0, rev@.len() - i),
                decreases i,
            {
                i -= 1;
                v.push(rev[i]);
                assert(v@ =~= rev@.reverse().subrange(0, rev@.len() - i));
            }
            assert(v@ =~= rev@.reverse());
            return v;
        } else {
            let ghost prev = rev@;
            rev.push(c);
            proof {
                assert(dec_repr(m as nat) == dec_repr((m / 10) as nat).push(
                    digit_char((m % 10) as nat),
                ));
                assert(dec_repr((m / 10) as nat) + rev@.reverse() =~= dec_repr(m as nat)
                    + prev.reverse());
            }
            m = m / 10;
        }
    }
}

} // verus!
