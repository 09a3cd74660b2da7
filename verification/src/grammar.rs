//! The directive grammar.
//!
//! ```text
//! Tag      := "[" "cfg" "(" "end" ")" "]"
//!           | "[" "cfg" "(" Pred ")" "]"
//! Pred     := "any" "(" PredList ")"
//!           | "all" "(" PredList ")"
//!           | "not" "(" Pred ")"
//!           | "feature" "=" '"' <characters other than '"'> '"'
//! PredList := Pred ("," Pred)* ","?
//! ```
//!
//! Spaces and tabs may stand between tokens. A tag spans its whole input:
//! nothing may come before the opening bracket or after the closing one.

use crate::predicate::{CfgTag, Group, Predicate, Tag, Tree};
use crate::text::to_chars;
use vstd::prelude::*;

verus! {

/// The text is not a directive of the grammar.
#[derive(Debug, Clone, Copy, PartialEq, Eq)]
pub struct ParseError {}

/// The characters that may separate tokens.
pub open spec fn is_gap(c: char) -> bool {
    c == ' ' || c == '\t'
}

/// The first position at or after `pos` that holds no separator.
pub open spec fn skip_gap(s: Seq<char>, pos: int) -> int
    decreases s.len() - pos,
{
    if 0 <= pos < s.len() && is_gap(s[pos]) {
        skip_gap(s, pos + 1)
    } else {
        pos
    }
}

/// The position after `w`, where `w` stands at `pos`.
pub open spec fn lit(s: Seq<char>, pos: int, w: Seq<char>) -> Option<int> {
    if 0 <= pos && pos + w.len() <= s.len() && s.subrange(pos, pos + w.len()) == w {
        Some(pos + w.len())
    } else {
        None
    }
}

/// The position after `w`, where `w` stands at `pos` behind optional separators.
pub open spec fn token(s: Seq<char>, pos: int, w: Seq<char>) -> Option<int> {
    lit(s, skip_gap(s, pos), w)
}

/// The first position at or after `pos` that holds a double quote, or the
/// length of `s` where there is none.
pub open spec fn quote_at(s: Seq<char>, pos: int) -> int
    decreases s.len() - pos,
{
    if 0 <= pos < s.len() && s[pos] != '"' {
        quote_at(s, pos + 1)
    } else {
        pos
    }
}

/// A feature test at `pos`: the tree and the position after it.
pub open spec fn spec_opt(s: Seq<char>, pos: int) -> Option<(Tree, int)> {
    match lit(s, pos, "feature"@) {
        None => None,
        Some(at1) => match token(s, at1, "="@) {
            None => None,
            Some(at2) => match token(s, at2, "\""@) {
                None => None,
                Some(at3) => {
                    let end = quote_at(s, at3);
                    if end < s.len() {
                        Some((Tree::Feature(s.subrange(at3, end)), end + 1))
                    } else {
                        None
                    }
                },
            },
        },
    }
}

/// A list separator at `pos`: a comma with optional separators on both sides.
pub open spec fn spec_sep(s: Seq<char>, pos: int) -> Option<int> {
    match token(s, pos, ","@) {
        None => None,
        Some(p) => Some(skip_gap(s, p)),
    }
}

/// A predicate at `pos`: the tree and the position after it.
///
/// The alternatives are told apart by their keyword. The tests that a
/// position lies ahead and within `s` stand here, and in `spec_list` and
/// `spec_more`, to show that the definitions are well founded; from a
/// position within `s` they never fail (`law_positions_advance`).
pub open spec fn spec_pred(s: Seq<char>, pos: int) -> Option<(Tree, int)>
    decreases s.len() - pos, 0int,
{
    if lit(s, pos, "any"@) is Some || lit(s, pos, "all"@) is Some {
        let any = lit(s, pos, "any"@) is Some;
        let at1 = if any {
            lit(s, pos, "any"@)->0
        } else {
            lit(s, pos, "all"@)->0
        };
        match token(s, at1, "("@) {
            None => None,
            Some(at2) => {
                let q = skip_gap(s, at2);
                if pos < q <= s.len() {
                    match spec_list(s, q) {
                        None => None,
                        Some((l, at3)) => match token(s, at3, ")"@) {
                            None => None,
                            Some(at4) => Some(
                                (
                                    if any {
                                        Tree::Any(l)
                                    } else {
                                        Tree::All(l)
                                    },
                                    at4,
                                ),
                            ),
                        },
                    }
                } else {
                    None
                }
            },
        }
    } else if lit(s, pos, "not"@) is Some {
        match token(s, lit(s, pos, "not"@)->0, "("@) {
            None => None,
            Some(at2) => {
                let q = skip_gap(s, at2);
                if pos < q <= s.len() {
                    match spec_pred(s, q) {
                        None => None,
                        Some((g, at3)) => match token(s, at3, ")"@) {
                            None => None,
                            Some(at4) => Some((Tree::Not(Box::new(g)), at4)),
                        },
                    }
                } else {
                    None
                }
            },
        }
    } else {
        spec_opt(s, pos)
    }
}

/// A list of predicates at `pos`, at least one: the trees and the position
/// after the list, an optional trailing separator included.
pub open spec fn spec_list(s: Seq<char>, pos: int) -> Option<(Seq<Tree>, int)>
    decreases s.len() - pos, 2int,
{
    match spec_pred(s, pos) {
        None => None,
        Some((g, at1)) => if pos <= at1 <= s.len() {
            Some(spec_more(s, at1, seq![g]))
        } else {
            None
        },
    }
}

/// The rest of a list whose members so far are `acc` and end at `pos`.
///
/// A separator that no predicate follows ends the list and belongs to it.
pub open spec fn spec_more(s: Seq<char>, pos: int, acc: Seq<Tree>) -> (Seq<Tree>, int)
    decreases s.len() - pos, 1int,
{
    match spec_sep(s, pos) {
        None => (acc, pos),
        Some(q) => if pos < q <= s.len() {
            match spec_pred(s, q) {
                None => (acc, q),
                Some((g, at2)) => if pos < at2 <= s.len() {
                    spec_more(s, at2, acc.push(g))
                } else {
                    (acc, q)
                },
            }
        } else {
            (acc, pos)
        },
    }
}

/// The directive that `s` spells, if it spells one.
pub open spec fn spec_tag(s: Seq<char>) -> Option<Tag> {
    match lit(s, 0, "["@) {
        None => None,
        Some(at1) => match token(s, at1, "cfg"@) {
            None => None,
            Some(at2) => match token(s, at2, "("@) {
                None => None,
                Some(at3) => {
                    let q = skip_gap(s, at3);
                    if lit(s, q, "end"@) is Some {
                        spec_close(s, lit(s, q, "end"@)->0, Tag::End)
                    } else {
                        match spec_pred(s, q) {
                            None => None,
                            Some((g, at4)) => spec_close(s, at4, Tag::Start(g)),
                        }
                    }
                },
            },
        },
    }
}

/// `tag`, where the closing bracket pair stands at `pos` and ends `s`.
pub open spec fn spec_close(s: Seq<char>, pos: int, tag: Tag) -> Option<Tag> {
    match token(s, pos, ")"@) {
        None => None,
        Some(at1) => match token(s, at1, "]"@) {
            None => None,
            Some(at2) => if at2 == s.len() {
                Some(tag)
            } else {
                None
            },
        },
    }
}

/// `skip_gap` stops within `s`, passes separators only, and stops at the
/// first other character.
pub proof fn lemma_skip_gap(s: Seq<char>, pos: int)
    requires
        0 <= pos <= s.len(),
    ensures
        pos <= skip_gap(s, pos) <= s.len(),
        forall|j: int| pos <= j < skip_gap(s, pos) ==> is_gap(#[trigger] s[j]),
        skip_gap(s, pos) < s.len() ==> !is_gap(s[skip_gap(s, pos)]),
    decreases s.len() - pos,
{
    if pos < s.len() && is_gap(s[pos]) {
        lemma_skip_gap(s, pos + 1);
    }
}

/// A run of separators from `pos` that stops at `q` is the one `skip_gap` passes.
pub proof fn lemma_skip_gap_unique(s: Seq<char>, pos: int, q: int)
    requires
        0 <= pos <= q <= s.len(),
        forall|j: int| pos <= j < q ==> is_gap(#[trigger] s[j]),
        q < s.len() ==> !is_gap(s[q]),
    ensures
        skip_gap(s, pos) == q,
    decreases q - pos,
{
    if pos < q {
        assert(is_gap(s[pos]));
        lemma_skip_gap_unique(s, pos + 1, q);
    }
}

/// `quote_at` stops at or after `pos` and within `s`.
pub proof fn lemma_quote_at(s: Seq<char>, pos: int)
    requires
        0 <= pos <= s.len(),
    ensures
        pos <= quote_at(s, pos) <= s.len(),
    decreases s.len() - pos,
{
    if pos < s.len() && s[pos] != '"' {
        lemma_quote_at(s, pos + 1);
    }
}

/// A run of characters other than the double quote from `pos` that stops at
/// `q` is the one `quote_at` passes.
pub proof fn lemma_quote_at_unique(s: Seq<char>, pos: int, q: int)
    requires
        0 <= pos <= q <= s.len(),
        forall|j: int| pos <= j < q ==> #[trigger] s[j] != '"',
        q < s.len() ==> s[q] == '"',
    ensures
        quote_at(s, pos) == q,
    decreases q - pos,
{
    if pos < q {
        assert(s[pos] != '"');
        lemma_quote_at_unique(s, pos + 1, q);
    }
}

/// From a position within `s`, what the grammar reads ends further on and
/// within `s`: a predicate, a list and a separator each take at least one
/// character, and so does the opening of a group. A list has a member.
pub proof fn law_positions_advance(s: Seq<char>, pos: int)
    requires
        0 <= pos <= s.len(),
    ensures
        spec_pred(s, pos) matches Some((_, end)) ==> pos < end <= s.len(),
        spec_list(s, pos) matches Some((l, end)) ==> pos < end <= s.len() && l.len() >= 1,
        spec_sep(s, pos) matches Some(end) ==> pos < end <= s.len(),
        forall|acc: Seq<Tree>|
            pos <= (#[trigger] spec_more(s, pos, acc)).1 <= s.len() && spec_more(s, pos, acc).0.len()
                >= acc.len(),
        forall|open: int|
            (lit(s, pos, "any"@) == Some(open) || lit(s, pos, "all"@) == Some(open) || lit(
                s,
                pos,
                "not"@,
            ) == Some(open)) && token(s, open, "("@) is Some ==> pos < skip_gap(
                s,
                #[trigger] token(s, open, "("@)->0,
            ) <= s.len(),
    decreases s.len() - pos, 3int,
{
    reveal_strlit("any");
    reveal_strlit("all");
    reveal_strlit("not");
    reveal_strlit("feature");
    reveal_strlit("(");
    reveal_strlit(")");
    reveal_strlit(",");
    lemma_skip_gap(s, pos);
    assert forall|open: int|
        (lit(s, pos, "any"@) == Some(open) || lit(s, pos, "all"@) == Some(open) || lit(
            s,
            pos,
            "not"@,
        ) == Some(open)) && token(s, open, "("@) is Some implies pos < skip_gap(
        s,
        #[trigger] token(s, open, "("@)->0,
    ) <= s.len() by {
        lemma_skip_gap(s, open);
        lemma_skip_gap(s, token(s, open, "("@)->0);
    }
    if spec_sep(s, pos) is Some {
        lemma_skip_gap(s, token(s, pos, ","@)->0);
    }
    lemma_pred_advances(s, pos);
    lemma_list_advances(s, pos);
    assert forall|acc: Seq<Tree>|
        pos <= (#[trigger] spec_more(s, pos, acc)).1 <= s.len() && spec_more(s, pos, acc).0.len()
            >= acc.len() by {
        lemma_more_advances(s, pos, acc);
    }
}

proof fn lemma_pred_advances(s: Seq<char>, pos: int)
    requires
        0 <= pos <= s.len(),
    ensures
        spec_pred(s, pos) matches Some((_, end)) ==> pos < end <= s.len(),
    decreases s.len() - pos, 0int,
{
    reveal_strlit("feature");
    reveal_strlit(")");
    if lit(s, pos, "any"@) is Some || lit(s, pos, "all"@) is Some || lit(s, pos, "not"@) is Some {
        let open = if lit(s, pos, "any"@) is Some {
            lit(s, pos, "any"@)->0
        } else if lit(s, pos, "all"@) is Some {
            lit(s, pos, "all"@)->0
        } else {
            lit(s, pos, "not"@)->0
        };
        if token(s, open, "("@) is Some {
            let q = skip_gap(s, token(s, open, "("@)->0);
            if pos < q <= s.len() {
                if lit(s, pos, "not"@) is Some && !(lit(s, pos, "any"@) is Some || lit(
                    s,
                    pos,
                    "all"@,
                ) is Some) {
                    lemma_pred_advances(s, q);
                    if spec_pred(s, q) is Some {
                        let inner = spec_pred(s, q)->0;
                        lemma_skip_gap(s, inner.1);
                    }
                } else {
                    lemma_list_advances(s, q);
                    if spec_list(s, q) is Some {
                        let list = spec_list(s, q)->0;
                        lemma_skip_gap(s, list.1);
                    }
                }
            }
        }
    } else {
        if lit(s, pos, "feature"@) is Some {
            let a = lit(s, pos, "feature"@)->0;
            lemma_skip_gap(s, a);
            if token(s, a, "="@) is Some {
                let b = token(s, a, "="@)->0;
                lemma_skip_gap(s, b);
                if token(s, b, "\""@) is Some {
                    lemma_quote_at(s, token(s, b, "\""@)->0);
                }
            }
        }
    }
}

proof fn lemma_list_advances(s: Seq<char>, pos: int)
    requires
        0 <= pos <= s.len(),
    ensures
        spec_list(s, pos) matches Some((l, end)) ==> pos < end <= s.len() && l.len() >= 1,
    decreases s.len() - pos, 2int,
{
    lemma_pred_advances(s, pos);
    if spec_pred(s, pos) is Some {
        let first = spec_pred(s, pos)->0;
        lemma_more_advances(s, first.1, seq![first.0]);
    }
}

proof fn lemma_more_advances(s: Seq<char>, pos: int, acc: Seq<Tree>)
    requires
        0 <= pos <= s.len(),
    ensures
        pos <= spec_more(s, pos, acc).1 <= s.len(),
        spec_more(s, pos, acc).0.len() >= acc.len(),
    decreases s.len() - pos, 1int,
{
    match spec_sep(s, pos) {
        None => {},
        Some(q) => if pos < q <= s.len() {
            lemma_pred_advances(s, q);
            match spec_pred(s, q) {
                None => {},
                Some((g, end)) => if pos < end <= s.len() {
                    lemma_more_advances(s, end, acc.push(g));
                },
            }
        },
    }
}

/// Passes the separators at `pos`.
fn eat_gap(v: &Vec<char>, pos: usize) -> (q: usize)
    requires
        pos <= v.len(),
    ensures
        q == skip_gap(v@, pos as int),
        pos <= q <= v.len(),
{
    let mut q: usize = pos;
    while q < v.len() && (v[q] == ' ' || v[q] == '\t')
        invariant
            pos <= q <= v.len(),
            forall|j: int| pos <= j < q ==> is_gap(#[trigger] v@[j]),
        decreases v.len() - q,
    {
        q += 1;
    }
    proof {
        lemma_skip_gap_unique(v@, pos as int, q as int);
    }
    q
}

/// Passes `w` at `pos`, where it stands there.
fn eat(v: &Vec<char>, pos: usize, w: &str) -> (r: Option<usize>)
    requires
        pos <= v.len(),
    ensures
        match r {
            Some(p) => lit(v@, pos as int, w@) == Some(p as int) && p == pos + w@.len() && p
                <= v.len(),
            None => lit(v@, pos as int, w@) is None,
        },
{
    let n = w.unicode_len();
    if n > v.len() - pos {
        return None;
    }
    let mut i: usize = 0;
    while i < n
        invariant
            n == w@.len(),
            pos + n <= v.len(),
            i <= n,
            forall|j: int| 0 <= j < i ==> v@[pos + j] == #[trigger] w@[j],
        decreases n - i,
    {
        if v[pos + i] != w.get_char(i) {
            assert(v@.subrange(pos as int, pos + n)[i as int] != w@[i as int]);
            return None;
        }
        i += 1;
    }
    assert(v@.subrange(pos as int, pos + n) =~= w@);
    Some(pos + n)
}

/// Passes separators and then `w`, where it stands there.
fn eat_token(v: &Vec<char>, pos: usize, w: &str) -> (r: Option<usize>)
    requires
        pos <= v.len(),
    ensures
        match r {
            Some(p) => token(v@, pos as int, w@) == Some(p as int) && p >= pos + w@.len() && p
                <= v.len(),
            None => token(v@, pos as int, w@) is None,
        },
{
    let q = eat_gap(v, pos);
    eat(v, q, w)
}

/// Reads a feature test at `pos`.
fn parse_opt(text: &str, v: &Vec<char>, pos: usize) -> (r: Option<(Predicate, usize)>)
    requires
        v@ == text@,
        pos <= v.len(),
    ensures
        match r {
            Some((o, p)) => spec_opt(v@, pos as int) == Some((o@, p as int)) && pos < p
                <= v.len(),
            None => spec_opt(v@, pos as int) is None,
        },
{
    let at1 = match eat(v, pos, "feature") {
        Some(p) => p,
        None => { return None; },
    };
    let at2 = match eat_token(v, at1, "=") {
        Some(p) => p,
        None => { return None; },
    };
    let at3 = match eat_token(v, at2, "\"") {
        Some(p) => p,
        None => { return None; },
    };
    let mut end: usize = at3;
    while end < v.len() && v[end] != '"'
        invariant
            at3 <= end <= v.len(),
            forall|j: int| at3 <= j < end ==> #[trigger] v@[j] != '"',
        decreases v.len() - end,
    {
        end += 1;
    }
    proof {
        lemma_quote_at_unique(v@, at3 as int, end as int);
    }
    if end < v.len() {
        let name = text.substring_char(at3, end).to_owned();
        Some((Predicate::Feature(name), end + 1))
    } else {
        None
    }
}

/// The trees that the members of `l` stand for.
pub open spec fn trees(l: Seq<Group>) -> Seq<Tree> {
    Seq::new(l.len(), |i: int| l[i]@)
}

/// Reads a predicate at `pos`.
fn parse_pred(text: &str, v: &Vec<char>, pos: usize) -> (r: Option<(Group, usize)>)
    requires
        v@ == text@,
        pos <= v.len(),
    ensures
        match r {
            Some((g, p)) => spec_pred(v@, pos as int) == Some((g@, p as int)) && pos < p
                <= v.len(),
            None => spec_pred(v@, pos as int) is None,
        },
    decreases v.len() - pos, 0int,
{
    proof {
        reveal_strlit("any");
        reveal_strlit("all");
        reveal_strlit("not");
    }
    let any = eat(v, pos, "any");
    let all = eat(v, pos, "all");
    if any.is_some() || all.is_some() {
        let at1 = if any.is_some() {
            any.unwrap()
        } else {
            all.unwrap()
        };
        let at2 = match eat_token(v, at1, "(") {
            Some(p) => p,
            None => { return None; },
        };
        let q = eat_gap(v, at2);
        let (l, at3) = match parse_list(text, v, q) {
            Some(x) => x,
            None => { return None; },
        };
        let at4 = match eat_token(v, at3, ")") {
            Some(p) => p,
            None => { return None; },
        };
        let ghost members = trees(l@);
        if any.is_some() {
            let g = Group::Any(l);
            assert(g@->Any_0 =~= members);
            Some((g, at4))
        } else {
            let g = Group::All(l);
            assert(g@->All_0 =~= members);
            Some((g, at4))
        }
    } else if let Some(at1) = eat(v, pos, "not") {
        let at2 = match eat_token(v, at1, "(") {
            Some(p) => p,
            None => { return None; },
        };
        let q = eat_gap(v, at2);
        let (g, at3) = match parse_pred(text, v, q) {
            Some(x) => x,
            None => { return None; },
        };
        let at4 = match eat_token(v, at3, ")") {
            Some(p) => p,
            None => { return None; },
        };
        Some((Group::Not(Box::new(g)), at4))
    } else {
        match parse_opt(text, v, pos) {
            Some((o, p)) => Some((Group::Option(o), p)),
            None => None,
        }
    }
}

/// Reads a list of predicates at `pos`.
fn parse_list(text: &str, v: &Vec<char>, pos: usize) -> (r: Option<(Vec<Group>, usize)>)
    requires
        v@ == text@,
        pos <= v.len(),
    ensures
        match r {
            Some((l, p)) => spec_list(v@, pos as int) == Some((trees(l@), p as int)) && pos < p
                <= v.len(),
            None => spec_list(v@, pos as int) is None,
        },
    decreases v.len() - pos, 2int,
{
    let (first, at1) = match parse_pred(text, v, pos) {
        Some(x) => x,
        None => { return None; },
    };
    let mut acc: Vec<Group> = Vec::new();
    acc.push(first);
    assert(trees(acc@) =~= seq![first@]);
    let mut cur: usize = at1;
    loop
        invariant_except_break
            spec_list(v@, pos as int) == Some(spec_more(v@, cur as int, trees(acc@))),
        invariant
            v@ == text@,
            pos < cur <= v.len(),
        ensures
            pos < cur <= v.len(),
            spec_list(v@, pos as int) == Some((trees(acc@), cur as int)),
        decreases v.len() - cur,
    {
        proof {
            reveal_strlit(",");
        }
        let q = match eat_token(v, cur, ",") {
            Some(p) => eat_gap(v, p),
            None => { break ; },
        };
        match parse_pred(text, v, q) {
            Some((g, at2)) => {
                let ghost before = trees(acc@);
                acc.push(g);
                assert(trees(acc@) =~= before.push(g@));
                cur = at2;
            },
            None => {
                cur = q;
                break ;
            },
        }
    }
    Some((acc, cur))
}

/// Reads the closing bracket pair at `pos`, which must end the text.
fn parse_close(v: &Vec<char>, pos: usize, tag: CfgTag) -> (r: Result<CfgTag, ParseError>)
    requires
        pos <= v.len(),
    ensures
        match r {
            Ok(t) => t == tag && spec_close(v@, pos as int, tag@) == Some(tag@),
            Err(_) => spec_close(v@, pos as int, tag@) is None,
        },
{
    let at1 = match eat_token(v, pos, ")") {
        Some(p) => p,
        None => { return Err(ParseError {  }); },
    };
    let at2 = match eat_token(v, at1, "]") {
        Some(p) => p,
        None => { return Err(ParseError {  }); },
    };
    if at2 == v.len() {
        Ok(tag)
    } else {
        Err(ParseError {  })
    }
}

/// Reads a directive: `Ok` with the tag that `text` spells, `Err` where it
/// spells none.
pub fn parse_tag(text: &str) -> (r: Result<CfgTag, ParseError>)
    ensures
        match r {
            Ok(t) => spec_tag(text@) == Some(t@),
            Err(_) => spec_tag(text@) is None,
        },
{
    let v = to_chars(text);
    let at1 = match eat(&v, 0, "[") {
        Some(p) => p,
        None => { return Err(ParseError {  }); },
    };
    let at2 = match eat_token(&v, at1, "cfg") {
        Some(p) => p,
        None => { return Err(ParseError {  }); },
    };
    let at3 = match eat_token(&v, at2, "(") {
        Some(p) => p,
        None => { return Err(ParseError {  }); },
    };
    let q = eat_gap(&v, at3);
    if let Some(at4) = eat(&v, q, "end") {
        parse_close(&v, at4, CfgTag::End)
    } else {
        match parse_pred(text, &v, q) {
            Some((g, at4)) => parse_close(&v, at4, CfgTag::Start(g)),
            None => Err(ParseError {  }),
        }
    }
}

} // verus!
