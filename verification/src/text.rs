//! Character classes and the prefix, suffix and trimming notions that the
//! line classifier is stated over.

use vstd::prelude::*;

verus! {

/// The characters that `char::is_whitespace` accepts (Unicode `White_Space`).
pub open spec fn is_space(c: char) -> bool {
    let n = c as u32;
    ||| 0x09 <= n <= 0x0D
    ||| n == 0x20
    ||| n == 0x85
    ||| n == 0xA0
    ||| n == 0x1680
    ||| 0x2000 <= n <= 0x200A
    ||| n == 0x2028
    ||| n == 0x2029
    ||| n == 0x202F
    ||| n == 0x205F
    ||| n == 0x3000
}

/// Decides `is_space`.
pub fn char_is_space(c: char) -> (b: bool)
    ensures
        b == is_space(c),
{
    let n: u32 = c as u32;
    (0x09 <= n && n <= 0x0D) || n == 0x20 || n == 0x85 || n == 0xA0 || n == 0x1680 || (0x2000 <= n
        && n <= 0x200A) || n == 0x2028 || n == 0x2029 || n == 0x202F || n == 0x205F || n == 0x3000
}

/// The characters that `u8::is_ascii_whitespace` accepts.
pub open spec fn is_ascii_space(c: char) -> bool {
    c == ' ' || c == '\t' || c == '\n' || c == '\x0C' || c == '\r'
}

/// Decides `is_ascii_space`.
pub fn char_is_ascii_space(c: char) -> (b: bool)
    ensures
        b == is_ascii_space(c),
{
    c == ' ' || c == '\t' || c == '\n' || c == '\x0C' || c == '\r'
}

/// Length of the longest run of `is_space` characters at the start of `s`.
pub open spec fn lead_space(s: Seq<char>) -> nat
    decreases s.len(),
{
    if s.len() == 0 || !is_space(s[0]) {
        0
    } else {
        1 + lead_space(s.drop_first())
    }
}

/// Length of the longest run of `is_ascii_space` characters at the start of `s`.
pub open spec fn lead_ascii_space(s: Seq<char>) -> nat
    decreases s.len(),
{
    if s.len() == 0 || !is_ascii_space(s[0]) {
        0
    } else {
        1 + lead_ascii_space(s.drop_first())
    }
}

/// Length of the longest run of `is_space` characters at the end of `s`.
pub open spec fn trail_space(s: Seq<char>) -> nat
    decreases s.len(),
{
    if s.len() == 0 || !is_space(s.last()) {
        0
    } else {
        1 + trail_space(s.drop_last())
    }
}

/// `s` without its leading whitespace.
pub open spec fn trim_start(s: Seq<char>) -> Seq<char> {
    s.skip(lead_space(s) as int)
}

/// `s` without its trailing whitespace.
pub open spec fn trim_end(s: Seq<char>) -> Seq<char> {
    s.take(s.len() - trail_space(s))
}

/// Every character of `s` is whitespace.
pub open spec fn is_blank(s: Seq<char>) -> bool {
    forall|i: int| 0 <= i < s.len() ==> is_space(#[trigger] s[i])
}

/// `s` begins with `p`.
pub open spec fn starts_with(s: Seq<char>, p: Seq<char>) -> bool {
    p.len() <= s.len() && s.take(p.len() as int) == p
}

/// `s` ends with `p`.
pub open spec fn ends_with(s: Seq<char>, p: Seq<char>) -> bool {
    p.len() <= s.len() && s.skip(s.len() - p.len()) == p
}

/// `s` without its first `n` characters; empty where `s` is shorter than `n`.
pub open spec fn skip_chars(s: Seq<char>, n: nat) -> Seq<char> {
    if n <= s.len() {
        s.skip(n as int)
    } else {
        Seq::empty()
    }
}

/// What `lead_space` counts: a run of whitespace that ends at the first other
/// character or at the end of `s`.
pub proof fn lemma_lead_space(s: Seq<char>)
    ensures
        lead_space(s) <= s.len(),
        forall|i: int| 0 <= i < lead_space(s) ==> is_space(#[trigger] s[i]),
        lead_space(s) < s.len() ==> !is_space(s[lead_space(s) as int]),
    decreases s.len(),
{
    if s.len() != 0 && is_space(s[0]) {
        let t = s.drop_first();
        lemma_lead_space(t);
        assert forall|i: int| 0 <= i < lead_space(s) implies is_space(#[trigger] s[i]) by {
            if i > 0 {
                assert(s[i] == t[i - 1]);
            }
        }
        if lead_space(s) < s.len() {
            assert(s[lead_space(s) as int] == t[lead_space(t) as int]);
        }
    }
}

/// A run of whitespace at the start of `s` that stops at `n` is the one that
/// `lead_space` counts.
pub proof fn lemma_lead_space_unique(s: Seq<char>, n: int)
    requires
        0 <= n <= s.len(),
        forall|i: int| 0 <= i < n ==> is_space(#[trigger] s[i]),
        n < s.len() ==> !is_space(s[n]),
    ensures
        lead_space(s) == n,
    decreases s.len(),
{
    if n > 0 {
        let t = s.drop_first();
        assert forall|i: int| 0 <= i < n - 1 implies is_space(#[trigger] t[i]) by {
            assert(t[i] == s[i + 1]);
        }
        lemma_lead_space_unique(t, n - 1);
    }
}

/// What `lead_ascii_space` counts.
pub proof fn lemma_lead_ascii_space(s: Seq<char>)
    ensures
        lead_ascii_space(s) <= s.len(),
        forall|i: int| 0 <= i < lead_ascii_space(s) ==> is_ascii_space(#[trigger] s[i]),
        lead_ascii_space(s) < s.len() ==> !is_ascii_space(s[lead_ascii_space(s) as int]),
    decreases s.len(),
{
    if s.len() != 0 && is_ascii_space(s[0]) {
        let t = s.drop_first();
        lemma_lead_ascii_space(t);
        assert forall|i: int| 0 <= i < lead_ascii_space(s) implies is_ascii_space(
            #[trigger] s[i],
        ) by {
            if i > 0 {
                assert(s[i] == t[i - 1]);
            }
        }
        if lead_ascii_space(s) < s.len() {
            assert(s[lead_ascii_space(s) as int] == t[lead_ascii_space(t) as int]);
        }
    }
}

/// A run of ASCII whitespace at the start of `s` that stops at `n` is the one
/// that `lead_ascii_space` counts.
pub proof fn lemma_lead_ascii_space_unique(s: Seq<char>, n: int)
    requires
        0 <= n <= s.len(),
        forall|i: int| 0 <= i < n ==> is_ascii_space(#[trigger] s[i]),
        n < s.len() ==> !is_ascii_space(s[n]),
    ensures
        lead_ascii_space(s) == n,
    decreases s.len(),
{
    if n > 0 {
        let t = s.drop_first();
        assert forall|i: int| 0 <= i < n - 1 implies is_ascii_space(#[trigger] t[i]) by {
            assert(t[i] == s[i + 1]);
        }
        lemma_lead_ascii_space_unique(t, n - 1);
    }
}

/// What `trail_space` counts.
pub proof fn lemma_trail_space(s: Seq<char>)
    ensures
        trail_space(s) <= s.len(),
        forall|i: int| s.len() - trail_space(s) <= i < s.len() ==> is_space(#[trigger] s[i]),
        trail_space(s) < s.len() ==> !is_space(s[s.len() - trail_space(s) - 1]),
    decreases s.len(),
{
    if s.len() != 0 && is_space(s.last()) {
        let t = s.drop_last();
        lemma_trail_space(t);
        assert forall|i: int| s.len() - trail_space(s) <= i < s.len() implies is_space(
            #[trigger] s[i],
        ) by {
            if i < s.len() - 1 {
                assert(s[i] == t[i]);
            }
        }
        if trail_space(s) < s.len() {
            assert(s[s.len() - trail_space(s) - 1] == t[t.len() - trail_space(t) - 1]);
        }
    }
}

/// A run of whitespace at the end of `s` that starts at `s.len() - n` is the
/// one that `trail_space` counts.
pub proof fn lemma_trail_space_unique(s: Seq<char>, n: int)
    requires
        0 <= n <= s.len(),
        forall|i: int| s.len() - n <= i < s.len() ==> is_space(#[trigger] s[i]),
        n < s.len() ==> !is_space(s[s.len() - n - 1]),
    ensures
        trail_space(s) == n,
    decreases s.len(),
{
    if n > 0 {
        let t = s.drop_last();
        assert(is_space(s[s.len() - 1]));
        assert forall|i: int| t.len() - (n - 1) <= i < t.len() implies is_space(
            #[trigger] t[i],
        ) by {
            assert(t[i] == s[i]);
        }
        lemma_trail_space_unique(t, n - 1);
    }
}

/// The characters of a string, in order.
pub fn to_chars(s: &str) -> (v: Vec<char>)
    ensures
        v@ == s@,
{
    let mut v: Vec<char> = Vec::new();
    for c in it: s.chars()
        invariant
            it.seq() == s@,
            v@ == s@.take(it.index() as int),
    {
        v.push(c);
    }
    v
}

/// Counts the whitespace at the start of `v`.
pub fn count_lead_space(v: &Vec<char>) -> (n: usize)
    ensures
        n == lead_space(v@),
{
    let mut i: usize = 0;
    while i < v.len() && char_is_space(v[i])
        invariant
            i <= v.len(),
            forall|j: int| 0 <= j < i ==> is_space(#[trigger] v@[j]),
        decreases v.len() - i,
    {
        i += 1;
    }
    proof {
        lemma_lead_space_unique(v@, i as int);
    }
    i
}

/// Counts the ASCII whitespace at the start of `v`.
pub fn count_lead_ascii_space(v: &Vec<char>) -> (n: usize)
    ensures
        n == lead_ascii_space(v@),
{
    let mut i: usize = 0;
    while i < v.len() && char_is_ascii_space(v[i])
        invariant
            i <= v.len(),
            forall|j: int| 0 <= j < i ==> is_ascii_space(#[trigger] v@[j]),
        decreases v.len() - i,
    {
        i += 1;
    }
    proof {
        lemma_lead_ascii_space_unique(v@, i as int);
    }
    i
}

/// Counts the whitespace at the end of `v`.
pub fn count_trail_space(v: &Vec<char>) -> (n: usize)
    ensures
        n == trail_space(v@),
{
    let len = v.len();
    let mut i: usize = 0;
    while i < len && char_is_space(v[len - i - 1])
        invariant
            len == v.len(),
            i <= len,
            forall|j: int| len - i <= j < len ==> is_space(#[trigger] v@[j]),
        decreases len - i,
    {
        i += 1;
    }
    proof {
        lemma_trail_space_unique(v@, i as int);
    }
    i
}

/// Whether the characters of `v` from `from` up to `to` begin with `p`.
pub fn range_starts_with(v: &Vec<char>, from: usize, to: usize, p: &Vec<char>) -> (b: bool)
    requires
        from <= to <= v.len(),
    ensures
        b == starts_with(v@.subrange(from as int, to as int), p@),
{
    let ghost s = v@.subrange(from as int, to as int);
    if p.len() > to - from {
        return false;
    }
    let mut i: usize = 0;
    while i < p.len()
        invariant
            from <= to <= v.len(),
            p.len() <= to - from,
            i <= p.len(),
            s == v@.subrange(from as int, to as int),
            forall|j: int| 0 <= j < i ==> s[j] == #[trigger] p@[j],
        decreases p.len() - i,
    {
        if v[from + i] != p[i] {
            assert(s.take(p@.len() as int)[i as int] != p@[i as int]);
            return false;
        }
        i += 1;
    }
    assert(s.take(p@.len() as int) =~= p@);
    true
}

/// Whether the characters of `v` from `from` up to `to` end with `p`.
pub fn range_ends_with(v: &Vec<char>, from: usize, to: usize, p: &Vec<char>) -> (b: bool)
    requires
        from <= to <= v.len(),
    ensures
        b == ends_with(v@.subrange(from as int, to as int), p@),
{
    if p.len() > to - from {
        return false;
    }
    let start: usize = to - p.len();
    let b = range_starts_with(v, start, to, p);
    proof {
        let s = v@.subrange(from as int, to as int);
        let t = v@.subrange(start as int, to as int);
        assert(s.skip(s.len() - p@.len()) =~= t);
        assert(t.take(p@.len() as int) =~= t);
    }
    b
}

/// Splits `i` behind its leading ASCII whitespace.
pub fn split_at_ws_end<'a>(i: &'a str) -> (r: (&'a str, &'a str))
    ensures
        r.0@ == i@.take(lead_ascii_space(i@) as int),
        r.1@ == i@.skip(lead_ascii_space(i@) as int),
{
    let v = to_chars(i);
    let idx = count_lead_ascii_space(&v);
    proof {
        lemma_lead_ascii_space(i@);
    }
    (i.substring_char(0, idx), i.substring_char(idx, v.len()))
}

/// `s` without its first `n` characters; empty where `s` is shorter than `n`.
pub fn skip_str<'a>(s: &'a str, n: usize) -> (r: &'a str)
    ensures
        r@ == skip_chars(s@, n as nat),
{
    let len = s.unicode_len();
    if n <= len {
        s.substring_char(n, len)
    } else {
        s.substring_char(0, 0)
    }
}

} // verus!
