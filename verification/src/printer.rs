//! Directives written out, and the law that ties the grammar to them: what
//! is written out is read back as it was.

use crate::grammar::{
    is_gap, lemma_quote_at_unique, lemma_skip_gap_unique, lit, skip_gap, spec_close, spec_list,
    spec_more, spec_opt, spec_pred, spec_tag, token,
};
use crate::predicate::{Tag, Tree};
use vstd::prelude::*;

verus! {

/// Whether `gap` may stand between two tokens: spaces and tabs only.
pub open spec fn all_gap(gap: Seq<char>) -> bool {
    forall|i: int| 0 <= i < gap.len() ==> is_gap(#[trigger] gap[i])
}

/// Whether `t` can be written out: no name holds a double quote, and no
/// group is empty.
pub open spec fn printable(t: Tree) -> bool
    decreases t,
{
    match t {
        Tree::Feature(name) => !name.contains('"'),
        Tree::All(l) => l.len() >= 1 && forall|i: int|
            0 <= i < l.len() ==> printable(#[trigger] l[i]),
        Tree::Any(l) => l.len() >= 1 && forall|i: int|
            0 <= i < l.len() ==> printable(#[trigger] l[i]),
        Tree::Not(g) => printable(*g),
    }
}

/// `t` written out, with `gap` wherever blanks may stand.
pub open spec fn render_pred(t: Tree, gap: Seq<char>) -> Seq<char>
    decreases t, 1int,
{
    match t {
        Tree::Feature(name) => "feature"@ + (gap + ("="@ + (gap + ("\""@ + (name + "\""@))))),
        Tree::All(l) => "all"@ + (gap + ("("@ + (gap + (render_list(l, gap) + (gap + ")"@))))),
        Tree::Any(l) => "any"@ + (gap + ("("@ + (gap + (render_list(l, gap) + (gap + ")"@))))),
        Tree::Not(g) => "not"@ + (gap + ("("@ + (gap + (render_pred(*g, gap) + (gap + ")"@))))),
    }
}

/// The members of a group written out, commas between them.
pub open spec fn render_list(l: Seq<Tree>, gap: Seq<char>) -> Seq<char>
    decreases l, 0int,
{
    if l.len() == 0 {
        Seq::empty()
    } else {
        render_pred(l[0], gap) + render_rest(l.drop_first(), gap)
    }
}

/// The members of a group behind the first, each behind a comma.
pub open spec fn render_rest(l: Seq<Tree>, gap: Seq<char>) -> Seq<char>
    decreases l, 0int,
{
    if l.len() == 0 {
        Seq::empty()
    } else {
        gap + (","@ + (gap + (render_pred(l[0], gap) + render_rest(l.drop_first(), gap))))
    }
}

/// A directive written out.
pub open spec fn render_tag(tag: Tag, gap: Seq<char>) -> Seq<char> {
    "["@ + (gap + ("cfg"@ + (gap + ("("@ + (gap + (match tag {
        Tag::End => "end"@,
        Tag::Start(g) => render_pred(g, gap),
    } + (gap + (")"@ + (gap + "]"@)))))))))
}

/// `w` stands in `s` at `pos`.
#[verifier::opaque]
pub open spec fn stands(s: Seq<char>, pos: int, w: Seq<char>) -> bool {
    0 <= pos && pos + w.len() <= s.len() && s.subrange(pos, pos + w.len()) == w
}

/// Where `a + b` stands, `a` stands, and `b` behind it.
proof fn lemma_split(s: Seq<char>, pos: int, a: Seq<char>, b: Seq<char>)
    requires
        stands(s, pos, a + b),
    ensures
        stands(s, pos, a),
        stands(s, pos + a.len(), b),
        forall|i: int| 0 <= i < a.len() ==> s[pos + i] == a[i],
        forall|i: int| 0 <= i < b.len() ==> s[pos + a.len() + i] == b[i],
        0 <= pos,
        pos + a.len() + b.len() <= s.len(),
{
    reveal(stands);
    let w = a + b;
    assert forall|i: int| 0 <= i < w.len() implies s[pos + i] == w[i] by {
        assert(s.subrange(pos, pos + w.len())[i] == w[i]);
    }
    assert(s.subrange(pos, pos + a.len()) =~= a) by {
        assert forall|i: int| 0 <= i < a.len() implies s.subrange(pos, pos + a.len())[i]
            == a[i] by {
            assert(w[i] == a[i]);
        }
    }
    assert(s.subrange(pos + a.len(), pos + a.len() + b.len()) =~= b) by {
        assert forall|i: int| 0 <= i < b.len() implies s.subrange(
            pos + a.len(),
            pos + a.len() + b.len(),
        )[i] == b[i] by {
            assert(w[a.len() + i] == b[i]);
            assert(s[pos + (a.len() + i)] == w[a.len() + i]);
        }
    }
    assert forall|i: int| 0 <= i < a.len() implies s[pos + i] == a[i] by {
        assert(w[i] == a[i]);
    }
    assert forall|i: int| 0 <= i < b.len() implies s[pos + a.len() + i] == b[i] by {
        assert(w[a.len() + i] == b[i]);
        assert(s[pos + (a.len() + i)] == w[a.len() + i]);
    }
}

/// What stands at a position is what the text holds there.
proof fn lemma_stands(s: Seq<char>, pos: int, w: Seq<char>)
    requires
        stands(s, pos, w),
    ensures
        0 <= pos,
        pos + w.len() <= s.len(),
        lit(s, pos, w) == Some(pos + w.len()),
        s.subrange(pos, pos + w.len()) == w,
        forall|i: int| 0 <= i < w.len() ==> s[pos + i] == #[trigger] w[i],
{
    reveal(stands);
    assert forall|i: int| 0 <= i < w.len() implies s[pos + i] == #[trigger] w[i] by {
        assert(s.subrange(pos, pos + w.len())[i] == w[i]);
    }
}

/// What stands at a position begins where the text has its first character.
proof fn lemma_first(s: Seq<char>, pos: int, w: Seq<char>)
    requires
        stands(s, pos, w),
        w.len() > 0,
    ensures
        0 <= pos < s.len(),
        s[pos] == w[0],
{
    reveal(stands);
    assert(s.subrange(pos, pos + w.len())[0] == w[0]);
}

/// A text stands at its own start.
proof fn lemma_stands_whole(s: Seq<char>)
    ensures
        stands(s, 0, s),
{
    reveal(stands);
    assert(s.subrange(0, s.len() as int) =~= s);
}

/// Blanks that stand at `pos` before another character are what `skip_gap`
/// passes.
proof fn lemma_skip(s: Seq<char>, pos: int, gap: Seq<char>)
    requires
        all_gap(gap),
        stands(s, pos, gap),
        pos + gap.len() == s.len() || !is_gap(s[pos + gap.len()]),
    ensures
        skip_gap(s, pos) == pos + gap.len(),
{
    lemma_stands(s, pos, gap);
    assert forall|j: int| pos <= j < pos + gap.len() implies is_gap(#[trigger] s[j]) by {
        assert(s[pos + (j - pos)] == gap[j - pos]);
    }
    lemma_skip_gap_unique(s, pos, pos + gap.len());
}

/// A token that stands behind blanks is read as that token.
proof fn lemma_token(s: Seq<char>, pos: int, gap: Seq<char>, w: Seq<char>)
    requires
        all_gap(gap),
        stands(s, pos, gap),
        stands(s, pos + gap.len(), w),
        w.len() > 0,
        !is_gap(w[0]),
    ensures
        skip_gap(s, pos) == pos + gap.len(),
        token(s, pos, w) == Some(pos + gap.len() + w.len()),
{
    lemma_stands(s, pos + gap.len(), w);
    lemma_first(s, pos + gap.len(), w);
    lemma_skip(s, pos, gap);
}

/// What is written out for a predicate begins with a keyword's letters.
proof fn lemma_head(t: Tree, gap: Seq<char>)
    ensures
        render_pred(t, gap).len() >= 3,
        !is_gap(render_pred(t, gap)[0]),
        render_pred(t, gap)[0] != 'e',
        render_pred(t, gap)[0] != ',',
        render_pred(t, gap)[0] != ')',
{
    reveal_strlit("feature");
    reveal_strlit("all");
    reveal_strlit("any");
    reveal_strlit("not");
}

/// A word is not read where the text differs from it.
proof fn lemma_other_keyword(s: Seq<char>, pos: int, w: Seq<char>, i: int)
    requires
        0 <= i < w.len(),
        0 <= pos,
        pos + i < s.len(),
        s[pos + i] != w[i],
    ensures
        lit(s, pos, w) is None,
{
    if lit(s, pos, w) is Some {
        assert(s.subrange(pos, pos + w.len())[i] == w[i]);
    }
}

/// The closing bracket of a group, behind blanks, is read as such, and no
/// comma is read there.
proof fn lemma_group_end(s: Seq<char>, pos: int, gap: Seq<char>)
    requires
        all_gap(gap),
        stands(s, pos, gap + ")"@),
    ensures
        token(s, pos, ")"@) == Some(pos + gap.len() + 1),
        token(s, pos, ","@) is None,
{
    reveal_strlit(")");
    reveal_strlit(",");
    lemma_split(s, pos, gap, ")"@);
    lemma_token(s, pos, gap, ")"@);
    lemma_first(s, pos + gap.len(), ")"@);
    lemma_other_keyword(s, pos + gap.len(), ","@, 0);
}

/// The opening of a group is read, and the blanks behind it passed, where
/// something other than a blank follows.
proof fn lemma_group_start(
    s: Seq<char>,
    pos: int,
    key: Seq<char>,
    gap: Seq<char>,
    inner: Seq<char>,
)
    requires
        all_gap(gap),
        key.len() == 3,
        inner.len() > 0,
        !is_gap(inner[0]),
        stands(s, pos, key + (gap + ("("@ + (gap + inner)))),
    ensures
        lit(s, pos, key) == Some(pos + 3),
        token(s, pos + 3, "("@) == Some(pos + 3 + gap.len() + 1),
        skip_gap(s, pos + 3 + gap.len() + 1) == pos + 3 + gap.len() + 1 + gap.len(),
        stands(s, pos + 3 + gap.len() + 1 + gap.len(), inner),
        s[pos] == key[0],
        s[pos + 1] == key[1],
        0 <= pos,
        pos + 3 <= s.len(),
{
    reveal_strlit("(");
    lemma_split(s, pos, key, gap + ("("@ + (gap + inner)));
    lemma_split(s, pos + 3, gap, "("@ + (gap + inner));
    lemma_split(s, pos + 3 + gap.len(), "("@, gap + inner);
    lemma_split(s, pos + 3 + gap.len() + 1, gap, inner);
    lemma_stands(s, pos, key);
    assert(s[pos + 0] == key[0]);
    assert(s[pos + 1] == key[1]);
    lemma_token(s, pos + 3, gap, "("@);
    let q: int = pos + 3 + gap.len() + 1 + gap.len();
    lemma_first(s, q, inner);
    lemma_skip(s, pos + 3 + gap.len() + 1, gap);
}

/// A feature test that is written out is read back as it was.
proof fn lemma_opt_round(s: Seq<char>, pos: int, name: Seq<char>, gap: Seq<char>)
    requires
        !name.contains('"'),
        all_gap(gap),
        stands(s, pos, render_pred(Tree::Feature(name), gap)),
    ensures
        spec_opt(s, pos) == Some(
            (Tree::Feature(name), pos + render_pred(Tree::Feature(name), gap).len()),
        ),
        0 <= pos < s.len(),
        s[pos] == 'f',
{
    reveal_strlit("feature");
    reveal_strlit("=");
    reveal_strlit("\"");
    let a: int = pos + 7;
    let b: int = a + gap.len() + 1;
    let c: int = b + gap.len() + 1;
    lemma_split(s, pos, "feature"@, gap + ("="@ + (gap + ("\""@ + (name + "\""@)))));
    lemma_split(s, a, gap, "="@ + (gap + ("\""@ + (name + "\""@))));
    lemma_split(s, a + gap.len(), "="@, gap + ("\""@ + (name + "\""@)));
    lemma_split(s, b, gap, "\""@ + (name + "\""@));
    lemma_split(s, b + gap.len(), "\""@, name + "\""@);
    lemma_split(s, c, name, "\""@);
    lemma_stands(s, pos, "feature"@);
    lemma_first(s, pos, "feature"@);
    lemma_token(s, a, gap, "="@);
    lemma_token(s, b, gap, "\""@);
    lemma_stands(s, c, name);
    lemma_first(s, c + name.len(), "\""@);
    assert forall|j: int| c <= j < c + name.len() implies #[trigger] s[j] != '"' by {
        assert(s[c + (j - c)] == name[j - c]);
        assert(name.contains(name[j - c]));
    }
    lemma_quote_at_unique(s, c, c + name.len());
}

/// A predicate that is written out is read back as it was.
pub proof fn lemma_pred_round(s: Seq<char>, pos: int, t: Tree, gap: Seq<char>)
    requires
        printable(t),
        all_gap(gap),
        stands(s, pos, render_pred(t, gap)),
    ensures
        spec_pred(s, pos) == Some((t, pos + render_pred(t, gap).len())),
    decreases t, 1int,
{
    reveal_strlit("all");
    reveal_strlit("any");
    reveal_strlit("not");
    reveal_strlit("(");
    reveal_strlit(")");
    match t {
        Tree::Feature(name) => {
            lemma_opt_round(s, pos, name, gap);
            lemma_other_keyword(s, pos, "any"@, 0);
            lemma_other_keyword(s, pos, "all"@, 0);
            lemma_other_keyword(s, pos, "not"@, 0);
        },
        Tree::Not(g) => {
            let inner = render_pred(*g, gap);
            lemma_head(*g, gap);
            lemma_group_start(s, pos, "not"@, gap, inner + (gap + ")"@));
            lemma_other_keyword(s, pos, "any"@, 0);
            lemma_other_keyword(s, pos, "all"@, 0);
            let q: int = pos + 3 + gap.len() + 1 + gap.len();
            lemma_split(s, q, inner, gap + ")"@);
            lemma_pred_round(s, q, *g, gap);
            lemma_group_end(s, q + inner.len(), gap);
        },
        Tree::All(l) => {
            lemma_group(s, pos, "all"@, l, gap);
            lemma_other_keyword(s, pos, "any"@, 1);
        },
        Tree::Any(l) => {
            lemma_group(s, pos, "any"@, l, gap);
        },
    }
}

/// The members of a group that is written out are read back as they were.
proof fn lemma_group(s: Seq<char>, pos: int, key: Seq<char>, l: Seq<Tree>, gap: Seq<char>)
    requires
        key.len() == 3,
        l.len() >= 1,
        forall|i: int| 0 <= i < l.len() ==> printable(#[trigger] l[i]),
        all_gap(gap),
        stands(s, pos, key + (gap + ("("@ + (gap + (render_list(l, gap) + (gap + ")"@)))))),
    ensures
        lit(s, pos, key) == Some(pos + 3),
        token(s, pos + 3, "("@) == Some(pos + 3 + gap.len() + 1),
        skip_gap(s, pos + 3 + gap.len() + 1) == pos + 3 + gap.len() + 1 + gap.len(),
        spec_list(s, pos + 3 + gap.len() + 1 + gap.len()) == Some(
            (l, pos + 3 + gap.len() + 1 + gap.len() + render_list(l, gap).len()),
        ),
        token(s, pos + 3 + gap.len() + 1 + gap.len() + render_list(l, gap).len(), ")"@) == Some(
            pos + 3 + gap.len() + 1 + gap.len() + render_list(l, gap).len() + gap.len() + 1,
        ),
        s[pos] == key[0],
        s[pos + 1] == key[1],
        0 <= pos,
        pos + 3 <= s.len(),
    decreases l, 1int,
{
    let first = render_pred(l[0], gap);
    let rest = render_rest(l.drop_first(), gap);
    let close = gap + ")"@;
    lemma_head(l[0], gap);
    assert(render_list(l, gap) + close =~= first + (rest + close));
    lemma_group_start(s, pos, key, gap, first + (rest + close));
    let q: int = pos + 3 + gap.len() + 1 + gap.len();
    lemma_split(s, q, first, rest + close);
    lemma_pred_round(s, q, l[0], gap);
    assert forall|i: int| 0 <= i < l.drop_first().len() implies printable(
        #[trigger] l.drop_first()[i],
    ) by {
        assert(l.drop_first()[i] == l[i + 1]);
    }
    lemma_more_round(s, q + first.len(), seq![l[0]], l.drop_first(), gap);
    assert(seq![l[0]] + l.drop_first() =~= l);
    lemma_group_end(s, q + first.len() + rest.len(), gap);
}

/// The members of a group behind the first are read back as they were.
proof fn lemma_more_round(
    s: Seq<char>,
    pos: int,
    acc: Seq<Tree>,
    rest: Seq<Tree>,
    gap: Seq<char>,
)
    requires
        forall|i: int| 0 <= i < rest.len() ==> printable(#[trigger] rest[i]),
        all_gap(gap),
        stands(s, pos, render_rest(rest, gap) + (gap + ")"@)),
    ensures
        spec_more(s, pos, acc) == (acc + rest, pos + render_rest(rest, gap).len()),
        stands(s, pos + render_rest(rest, gap).len(), gap + ")"@),
    decreases rest, 0int,
{
    reveal_strlit(",");
    let close = gap + ")"@;
    if rest.len() == 0 {
        assert(render_rest(rest, gap) + close =~= close);
        lemma_group_end(s, pos, gap);
        assert(acc + rest =~= acc);
    } else {
        let first = render_pred(rest[0], gap);
        let tail = render_rest(rest.drop_first(), gap);
        lemma_head(rest[0], gap);
        assert(render_rest(rest, gap) + close =~= gap + (","@ + (gap + (first + (tail + close)))));
        lemma_split(s, pos, gap, ","@ + (gap + (first + (tail + close))));
        lemma_split(s, pos + gap.len(), ","@, gap + (first + (tail + close)));
        lemma_split(s, pos + gap.len() + 1, gap, first + (tail + close));
        let q: int = pos + gap.len() + 1 + gap.len();
        lemma_split(s, q, first, tail + close);
        lemma_token(s, pos, gap, ","@);
        lemma_first(s, q, first);
        lemma_skip(s, pos + gap.len() + 1, gap);
        lemma_pred_round(s, q, rest[0], gap);
        assert forall|i: int| 0 <= i < rest.drop_first().len() implies printable(
            #[trigger] rest.drop_first()[i],
        ) by {
            assert(rest.drop_first()[i] == rest[i + 1]);
        }
        lemma_more_round(s, q + first.len(), acc.push(rest[0]), rest.drop_first(), gap);
        assert(acc.push(rest[0]) + rest.drop_first() =~= acc + rest);
    }
}

/// What closes a directive, behind blanks.
pub open spec fn render_close(gap: Seq<char>) -> Seq<char> {
    gap + (")"@ + (gap + "]"@))
}

/// The opening of a directive is read up to its body.
proof fn lemma_frame_open(s: Seq<char>, gap: Seq<char>, n: int, rest: Seq<char>)
    requires
        all_gap(gap),
        n == gap.len(),
        rest.len() > 0,
        !is_gap(rest[0]),
        stands(s, 0, "["@ + (gap + ("cfg"@ + (gap + ("("@ + (gap + rest)))))),
    ensures
        lit(s, 0, "["@) == Some(1int),
        token(s, 1, "cfg"@) == Some(4 + n),
        token(s, 4 + n, "("@) == Some(5 + 2 * n),
        skip_gap(s, 5 + 2 * n) == 5 + 3 * n,
        stands(s, 5 + 3 * n, rest),
{
    reveal_strlit("[");
    reveal_strlit("cfg");
    reveal_strlit("(");
    lemma_split(s, 0, "["@, gap + ("cfg"@ + (gap + ("("@ + (gap + rest)))));
    lemma_split(s, 1, gap, "cfg"@ + (gap + ("("@ + (gap + rest))));
    lemma_split(s, 1 + n, "cfg"@, gap + ("("@ + (gap + rest)));
    lemma_split(s, 4 + n, gap, "("@ + (gap + rest));
    lemma_split(s, 4 + 2 * n, "("@, gap + rest);
    lemma_split(s, 5 + 2 * n, gap, rest);
    lemma_stands(s, 0, "["@);
    lemma_token(s, 1, gap, "cfg"@);
    lemma_token(s, 4 + n, gap, "("@);
    lemma_first(s, 5 + 3 * n, rest);
    lemma_skip(s, 5 + 2 * n, gap);
}

/// The closing of a directive is read where it ends the text.
proof fn lemma_frame_close(s: Seq<char>, pos: int, gap: Seq<char>, tag: Tag)
    requires
        all_gap(gap),
        stands(s, pos, render_close(gap)),
        pos + render_close(gap).len() == s.len(),
    ensures
        spec_close(s, pos, tag) == Some(tag),
{
    reveal_strlit(")");
    reveal_strlit("]");
    let n: int = gap.len() as int;
    lemma_split(s, pos, gap, ")"@ + (gap + "]"@));
    lemma_split(s, pos + n, ")"@, gap + "]"@);
    lemma_split(s, pos + n + 1, gap, "]"@);
    lemma_token(s, pos, gap, ")"@);
    lemma_token(s, pos + n + 1, gap, "]"@);
}

/// A directive's frame is read around a body that stands in it.
proof fn lemma_frame(s: Seq<char>, gap: Seq<char>, n: int, body: Seq<char>, tag: Tag)
    requires
        all_gap(gap),
        n == gap.len(),
        body.len() > 0,
        !is_gap(body[0]),
        s == "["@ + (gap + ("cfg"@ + (gap + ("("@ + (gap + (body + render_close(gap))))))),
    ensures
        lit(s, 0, "["@) == Some(1int),
        token(s, 1, "cfg"@) == Some(4 + n),
        token(s, 4 + n, "("@) == Some(5 + 2 * n),
        skip_gap(s, 5 + 2 * n) == 5 + 3 * n,
        stands(s, 5 + 3 * n, body),
        spec_close(s, 5 + 3 * n + body.len(), tag) == Some(tag),
{
    reveal_strlit("[");
    reveal_strlit("cfg");
    reveal_strlit("(");
    reveal_strlit(")");
    reveal_strlit("]");
    lemma_stands_whole(s);
    lemma_frame_open(s, gap, n, body + render_close(gap));
    lemma_split(s, 5 + 3 * n, body, render_close(gap));
    lemma_frame_close(s, 5 + 3 * n + body.len(), gap, tag);
}

/// Round trip: a directive that is written out, with any run of blanks
/// between its tokens, is read back as it was.
pub proof fn law_round_trip(tag: Tag, gap: Seq<char>)
    requires
        all_gap(gap),
        tag matches Tag::Start(g) ==> printable(g),
    ensures
        spec_tag(render_tag(tag, gap)) == Some(tag),
{
    let s = render_tag(tag, gap);
    let n: int = gap.len() as int;
    let q: int = 5 + 3 * n;
    reveal_strlit("end");
    match tag {
        Tag::End => {
            lemma_frame(s, gap, n, "end"@, tag);
            lemma_stands(s, q, "end"@);
        },
        Tag::Start(g) => {
            let body = render_pred(g, gap);
            lemma_head(g, gap);
            lemma_frame(s, gap, n, body, tag);
            lemma_first(s, q, body);
            lemma_other_keyword(s, q, "end"@, 0);
            lemma_pred_round(s, q, g, gap);
        },
    }
}

} // verus!
