//! Feature names as a build script learns them: from the names of the
//! `CARGO_FEATURE_*` variables of its environment.

use crate::text::{range_starts_with, starts_with, to_chars};
use vstd::prelude::*;

verus! {

/// An ASCII capital as its small letter; any other character as it is.
pub open spec fn lower(c: char) -> char {
    if 'A' <= c <= 'Z' {
        ((c as u8) + 32) as char
    } else {
        c
    }
}

/// A character of a variable's name as the feature's name has it: letters
/// in lower case, a hyphen for an underscore.
pub open spec fn feature_char(c: char) -> char {
    if c == '_' {
        '-'
    } else {
        lower(c)
    }
}

/// The feature that the variable `name` announces, if it announces one.
pub open spec fn feature_of(name: Seq<char>) -> Option<Seq<char>> {
    if starts_with(name, "CARGO_FEATURE_"@) {
        Some(
            Seq::new(
                (name.len() - "CARGO_FEATURE_"@.len()) as nat,
                |i: int| feature_char(name["CARGO_FEATURE_"@.len() + i]),
            ),
        )
    } else {
        None
    }
}

/// `String::from_iter` on a vector of characters: the string made of exactly
/// these characters, in this order.
#[verifier::external_body]
fn string_of(v: Vec<char>) -> (s: String)
    ensures
        s@ == v@,
{
    String::from_iter(v)
}

/// The feature that the environment variable `name` announces: the name
/// behind `CARGO_FEATURE_`, in lower case and with hyphens for underscores.
/// `None` for a variable that does not begin so.
pub fn feature_name(name: &str) -> (r: Option<String>)
    ensures
        match r {
            Some(f) => feature_of(name@) == Some(f@),
            None => feature_of(name@) is None,
        },
{
    let v = to_chars(name);
    let lead = to_chars("CARGO_FEATURE_");
    let n = v.len();
    assert(v@.subrange(0, n as int) =~= v@);
    if !range_starts_with(&v, 0, n, &lead) {
        return None;
    }
    let k = lead.len();
    let mut out: Vec<char> = Vec::new();
    let mut i: usize = k;
    while i < n
        invariant
            k <= i <= n,
            n == v@.len(),
            out@.len() == i - k,
            forall|j: int| 0 <= j < i - k ==> #[trigger] out@[j] == feature_char(v@[k + j]),
        decreases n - i,
    {
        let c = v[i];
        let m = if c == '_' {
            '-'
        } else if 'A' <= c && c <= 'Z' {
            ((c as u8) + 32) as char
        } else {
            c
        };
        out.push(m);
        i += 1;
    }
    assert(out@ =~= feature_of(name@)->0);
    Some(string_of(out))
}

} // verus!
