//! What holds of the toggling pass as a whole: scopes balance, a second pass
//! changes nothing, and a reset forgets the configuration that came before.

use crate::config::DataView;
use crate::grammar::spec_tag;
use crate::lang::LangView;
use crate::predicate::Tag;
use crate::state::{top_prefix, Frame};
use crate::text::{is_blank, starts_with};
use crate::toggle::{
    directive_text, is_active, is_directive, rewrite, run, should_be_active, step, toggle,
    ToggleError, Toggled,
};
use vstd::prelude::*;

verus! {

/// Whether `line` is a directive that opens a scope.
pub open spec fn is_start(line: Seq<char>, d: LangView) -> bool {
    is_directive(line, d) && spec_tag(directive_text(line, d)) matches Some(Tag::Start(_))
}

/// Whether `line` is a directive that closes a scope.
pub open spec fn is_end(line: Seq<char>, d: LangView) -> bool {
    is_directive(line, d) && spec_tag(directive_text(line, d)) == Some(Tag::End)
}

/// How many of `lines` open a scope.
pub open spec fn count_starts(lines: Seq<Seq<char>>, d: LangView) -> nat
    decreases lines.len(),
{
    if lines.len() == 0 {
        0
    } else {
        count_starts(lines.drop_last(), d) + if is_start(lines.last(), d) {
            1nat
        } else {
            0nat
        }
    }
}

/// How many of `lines` close a scope.
pub open spec fn count_ends(lines: Seq<Seq<char>>, d: LangView) -> nat
    decreases lines.len(),
{
    if lines.len() == 0 {
        0
    } else {
        count_ends(lines.drop_last(), d) + if is_end(lines.last(), d) {
            1nat
        } else {
            0nat
        }
    }
}

/// After a pass that succeeds, the scopes still open are those that were
/// open before, plus those that the lines opened, minus those they closed.
pub proof fn law_depth(stack: Seq<Frame>, lines: Seq<Seq<char>>, c: DataView, d: LangView)
    ensures
        run(stack, lines, c, d) matches Ok((end, out)) ==> {
            &&& end.len() + count_ends(lines, d) == stack.len() + count_starts(lines, d)
            &&& out.len() == lines.len()
        },
    decreases lines.len(),
{
    if lines.len() > 0 {
        law_depth(stack, lines.drop_last(), c, d);
    }
}

/// A file that is toggled with success ends outside any scope exactly when
/// it opens as many scopes as it closes.
pub proof fn law_balanced(lines: Seq<Seq<char>>, c: DataView, d: LangView)
    ensures
        run(Seq::empty(), lines, c, d) matches Ok((end, _)) ==> (end.len() == 0 <==> count_starts(
            lines,
            d,
        ) == count_ends(lines, d)),
{
    law_depth(Seq::empty(), lines, c, d);
}

/// Whether line `n` is a closing directive behind lines that pass and that
/// open as many scopes as they close.
pub open spec fn closes_nothing(lines: Seq<Seq<char>>, n: int, c: DataView, d: LangView) -> bool {
    &&& 0 <= n < lines.len()
    &&& run(Seq::empty(), lines.take(n), c, d) is Ok
    &&& count_starts(lines.take(n), d) == count_ends(lines.take(n), d)
    &&& is_end(lines[n], d)
}

/// The pass stops with `UnbalancedEnd` exactly where a closing directive
/// follows lines that pass and that open as many scopes as they close.
pub proof fn law_unbalanced_end(lines: Seq<Seq<char>>, c: DataView, d: LangView)
    ensures
        toggle(lines, c, d) == Toggled::Err(ToggleError::UnbalancedEnd) <==> exists|n: int|
            closes_nothing(lines, n, c, d),
    decreases lines.len(),
{
    let empty = Seq::<Frame>::empty();
    if lines.len() > 0 {
        let front = lines.drop_last();
        let last = lines.len() - 1;
        assert(lines.take(last) =~= front);
        law_unbalanced_end(front, c, d);
        law_depth(empty, front, c, d);
        assert forall|n: int| 0 <= n < last implies closes_nothing(lines, n, c, d)
            == closes_nothing(front, n, c, d) by {
            assert(lines.take(n) =~= front.take(n));
        }
        if toggle(lines, c, d) == Toggled::Err(ToggleError::UnbalancedEnd) {
            if run(empty, front, c, d) is Err {
                let n = choose|n: int| closes_nothing(front, n, c, d);
                assert(closes_nothing(lines, n, c, d));
            } else {
                assert(closes_nothing(lines, last, c, d));
            }
        }
        if exists|n: int| closes_nothing(lines, n, c, d) {
            let n = choose|n: int| closes_nothing(lines, n, c, d);
            if n < last {
                assert(closes_nothing(front, n, c, d));
            }
        }
    }
}

/// Whether the line that a pass hands on for `line` reads, on a further
/// pass, as what it is: where the pass rewrote the line, the result is no
/// directive line and, unless it is blank, shows the state it was brought to.
///
/// This fails of a line that carries the comment marker twice, and of one
/// whose text behind the marker is itself a directive.
pub open spec fn settles(stack: Seq<Frame>, line: Seq<char>, c: DataView, d: LangView) -> bool {
    match step(stack, line, c, d) {
        Err(_) => true,
        Ok((_, out)) => out == line || {
            &&& !is_directive(out, d)
            &&& (is_blank(out) || is_active(top_prefix(stack), out, d.comment) == should_be_active(
                stack,
                c,
            ))
        },
    }
}

/// Whether every line of a pass from `stack` settles.
pub open spec fn all_settle(stack: Seq<Frame>, lines: Seq<Seq<char>>, c: DataView, d: LangView) -> bool
    decreases lines.len(),
{
    lines.len() == 0 || {
        &&& all_settle(stack, lines.drop_last(), c, d)
        &&& run(stack, lines.drop_last(), c, d) matches Ok((mid, _)) ==> settles(
            mid,
            lines.last(),
            c,
            d,
        )
    }
}

/// Two stacks of the same depth whose scopes have the same whitespace.
pub open spec fn same_shape(a: Seq<Frame>, b: Seq<Frame>) -> bool {
    &&& a.len() == b.len()
    &&& forall|i: int| 0 <= i < a.len() ==> (#[trigger] a[i]).1 == b[i].1
}

/// Whether a line passes, which error it raises, and the shape of the stack
/// after it depend on the shape of the stack alone; the line handed on
/// depends besides only on whether content is to be active.
pub proof fn lemma_step_shape(
    a: Seq<Frame>,
    b: Seq<Frame>,
    line: Seq<char>,
    ca: DataView,
    cb: DataView,
    d: LangView,
)
    requires
        same_shape(a, b),
    ensures
        match (step(a, line, ca, d), step(b, line, cb, d)) {
            (Ok((na, oa)), Ok((nb, ob))) => same_shape(na, nb) && (should_be_active(a, ca)
                == should_be_active(b, cb) ==> oa == ob),
            (Err(ea), Err(eb)) => ea == eb,
            _ => false,
        },
{
    if a.len() > 0 {
        assert(a.last().1 == b.last().1);
    }
}

/// A content line that is rewritten still begins with the scope's whitespace.
proof fn lemma_rewrite_keeps_prefix(
    prefix: Seq<char>,
    line: Seq<char>,
    should: bool,
    comment: Seq<char>,
)
    requires
        starts_with(line, prefix),
    ensures
        starts_with(rewrite(prefix, line, should, comment), prefix),
        line == prefix + line.skip(prefix.len() as int),
{
    let body = line.skip(prefix.len() as int);
    assert(line =~= prefix + body);
    assert((prefix + body.skip(comment.len() as int)).take(prefix.len() as int) =~= prefix);
    assert((prefix + comment + body).take(prefix.len() as int) =~= prefix);
}

/// A line that is not blank stays so when the comment marker is put in.
proof fn lemma_commented_not_blank(prefix: Seq<char>, line: Seq<char>, comment: Seq<char>)
    requires
        starts_with(line, prefix),
        !is_blank(line),
    ensures
        !is_blank(prefix + comment + line.skip(prefix.len() as int)),
{
    let body = line.skip(prefix.len() as int);
    let out = prefix + comment + body;
    let i = choose|i: int| 0 <= i < line.len() && !crate::text::is_space(#[trigger] line[i]);
    assert(line =~= prefix + body);
    if i < prefix.len() {
        assert(out[i] == line[i]);
    } else {
        assert(out[i + comment.len()] == line[i]);
    }
}

/// The second pass over one line: where the line settled under the first
/// configuration, and the second asks for active content wherever the first
/// did, the second pass treats the line handed on as it treats the line itself.
pub proof fn lemma_line_again(
    a: Seq<Frame>,
    b: Seq<Frame>,
    line: Seq<char>,
    ca: DataView,
    cb: DataView,
    d: LangView,
)
    requires
        same_shape(a, b),
        step(a, line, ca, d) is Ok,
        settles(a, line, ca, d),
        should_be_active(a, ca) ==> should_be_active(b, cb),
    ensures
        step(b, step(a, line, ca, d)->Ok_0.1, cb, d) == step(b, line, cb, d),
{
    let out = step(a, line, ca, d)->Ok_0.1;
    if a.len() > 0 {
        assert(a.last().1 == b.last().1);
    }
    if out != line {
        let prefix = top_prefix(a);
        let comment = d.comment;
        let body = line.skip(prefix.len() as int);
        let sa = should_be_active(a, ca);
        let sb = should_be_active(b, cb);
        assert(top_prefix(b) == prefix);
        lemma_rewrite_keeps_prefix(prefix, line, sa, comment);
        lemma_rewrite_keeps_prefix(prefix, line, sb, comment);
        if sa {
            let rest = body.skip(comment.len() as int);
            assert(out == prefix + rest);
            assert(out.skip(prefix.len() as int) =~= rest);
        } else {
            assert(out == prefix + comment + body);
            lemma_commented_not_blank(prefix, line, comment);
            assert(out.skip(prefix.len() as int) =~= comment + body);
            assert((comment + body).take(comment.len() as int) =~= comment);
            assert((comment + body).skip(comment.len() as int) =~= body);
        }
    }
}

/// The second pass over a file: where every line settled under the first
/// configuration, a pass under a configuration that resets, or under the
/// first configuration again, treats the lines handed on as it treats the
/// lines themselves.
pub proof fn lemma_run_again(
    a: Seq<Frame>,
    b: Seq<Frame>,
    lines: Seq<Seq<char>>,
    ca: DataView,
    cb: DataView,
    d: LangView,
)
    requires
        same_shape(a, b),
        run(a, lines, ca, d) is Ok,
        all_settle(a, lines, ca, d),
        cb.reset || (ca == cb && a == b),
    ensures
        run(b, run(a, lines, ca, d)->Ok_0.1, cb, d) == run(b, lines, cb, d),
        run(b, lines, cb, d) matches Ok((end, _)) && same_shape(run(a, lines, ca, d)->Ok_0.0, end),
    decreases lines.len(),
{
    let first = run(a, lines, ca, d)->Ok_0.1;
    if lines.len() == 0 {
        assert(first =~= lines);
    } else {
        let front = lines.drop_last();
        let mid_a = run(a, front, ca, d)->Ok_0.0;
        let front_out = run(a, front, ca, d)->Ok_0.1;
        let out = step(mid_a, lines.last(), ca, d)->Ok_0.1;
        lemma_run_again(a, b, front, ca, cb, d);
        let mid_b = run(b, front, cb, d)->Ok_0.0;
        assert(first == front_out.push(out));
        assert(first.drop_last() =~= front_out);
        assert(first.last() == out);
        lemma_step_shape(mid_a, mid_b, lines.last(), ca, cb, d);
        lemma_line_again(mid_a, mid_b, lines.last(), ca, cb, d);
    }
}

/// Idempotence: toggling what a pass handed on, under the same
/// configuration, hands on the same lines, where each line of the first
/// pass settles.
pub proof fn law_idempotent(lines: Seq<Seq<char>>, c: DataView, d: LangView)
    requires
        toggle(lines, c, d) is Ok,
        all_settle(Seq::empty(), lines, c, d),
    ensures
        toggle(toggle(lines, c, d)->Ok_0, c, d) == toggle(lines, c, d),
{
    lemma_run_again(Seq::empty(), Seq::empty(), lines, c, c, d);
}

/// Reset normal form: a reset of what a pass handed on is the reset of the
/// file itself, so it does not depend on the configuration of that pass,
/// where each line of the pass settles.
pub proof fn law_reset_after_pass(lines: Seq<Seq<char>>, c: DataView, reset: DataView, d: LangView)
    requires
        reset.reset,
        toggle(lines, c, d) is Ok,
        all_settle(Seq::empty(), lines, c, d),
    ensures
        toggle(toggle(lines, c, d)->Ok_0, reset, d) == toggle(lines, reset, d),
        toggle(lines, reset, d) is Ok,
{
    lemma_run_again(Seq::empty(), Seq::empty(), lines, c, reset, d);
}

/// Reset normal form, for two passes: whatever configurations two passes
/// over one file were made under, a reset of either result gives the same
/// lines, where each line of either pass settles.
pub proof fn law_reset_normal_form(
    lines: Seq<Seq<char>>,
    c1: DataView,
    c2: DataView,
    reset: DataView,
    d: LangView,
)
    requires
        reset.reset,
        toggle(lines, c1, d) is Ok,
        all_settle(Seq::empty(), lines, c1, d),
        all_settle(Seq::empty(), lines, c2, d),
    ensures
        toggle(toggle(lines, c1, d)->Ok_0, reset, d) == toggle(toggle(lines, c2, d)->Ok_0, reset, d),
        toggle(toggle(lines, c1, d)->Ok_0, reset, d) is Ok,
{
    law_errors_ignore_configuration(lines, c1, c2, d);
    law_reset_after_pass(lines, c1, reset, d);
    law_reset_after_pass(lines, c2, reset, d);
}

/// Passes under two configurations that both reset, from stacks of the same
/// shape, hand on the same lines and end in stacks of the same shape.
pub proof fn lemma_reset_runs_agree(
    a: Seq<Frame>,
    b: Seq<Frame>,
    lines: Seq<Seq<char>>,
    ra: DataView,
    rb: DataView,
    d: LangView,
)
    requires
        same_shape(a, b),
        ra.reset,
        rb.reset,
    ensures
        match (run(a, lines, ra, d), run(b, lines, rb, d)) {
            (Ok((ea, oa)), Ok((eb, ob))) => same_shape(ea, eb) && oa == ob,
            (Err(x), Err(y)) => x == y,
            _ => false,
        },
    decreases lines.len(),
{
    if lines.len() > 0 {
        lemma_reset_runs_agree(a, b, lines.drop_last(), ra, rb, d);
        if run(a, lines.drop_last(), ra, d) is Ok {
            lemma_step_shape(
                run(a, lines.drop_last(), ra, d)->Ok_0.0,
                run(b, lines.drop_last(), rb, d)->Ok_0.0,
                lines.last(),
                ra,
                rb,
                d,
            );
        }
    }
}

/// What a reset hands on does not depend on the features of the
/// configuration that asks for it.
pub proof fn law_reset_ignores_features(
    lines: Seq<Seq<char>>,
    r1: DataView,
    r2: DataView,
    d: LangView,
)
    requires
        r1.reset,
        r2.reset,
    ensures
        toggle(lines, r1, d) == toggle(lines, r2, d),
{
    lemma_reset_runs_agree(Seq::empty(), Seq::empty(), lines, r1, r2, d);
}

/// Whether a pass succeeds, and with which error it stops, does not depend
/// on the configuration.
pub proof fn law_errors_ignore_configuration(
    lines: Seq<Seq<char>>,
    c1: DataView,
    c2: DataView,
    d: LangView,
)
    ensures
        match (toggle(lines, c1, d), toggle(lines, c2, d)) {
            (Ok(o1), Ok(o2)) => o1.len() == o2.len(),
            (Err(x), Err(y)) => x == y,
            _ => false,
        },
{
    lemma_runs_same_shape(Seq::empty(), Seq::empty(), lines, c1, c2, d);
}

/// Passes under any two configurations, from stacks of the same shape,
/// succeed or fail alike and end in stacks of the same shape.
pub proof fn lemma_runs_same_shape(
    a: Seq<Frame>,
    b: Seq<Frame>,
    lines: Seq<Seq<char>>,
    ca: DataView,
    cb: DataView,
    d: LangView,
)
    requires
        same_shape(a, b),
    ensures
        match (run(a, lines, ca, d), run(b, lines, cb, d)) {
            (Ok((ea, oa)), Ok((eb, ob))) => same_shape(ea, eb) && oa.len() == ob.len(),
            (Err(x), Err(y)) => x == y,
            _ => false,
        },
    decreases lines.len(),
{
    if lines.len() > 0 {
        lemma_runs_same_shape(a, b, lines.drop_last(), ca, cb, d);
        if run(a, lines.drop_last(), ca, d) is Ok {
            lemma_step_shape(
                run(a, lines.drop_last(), ca, d)->Ok_0.0,
                run(b, lines.drop_last(), cb, d)->Ok_0.0,
                lines.last(),
                ca,
                cb,
                d,
            );
        }
    }
}

} // verus!
