//! The toggling pass over the lines of one file.
//!
//! A directive line opens or closes a scope and is passed on as it is. A
//! content line is passed on with or without the comment marker, as the
//! scopes around it and the configuration ask.

use crate::config::{Data, DataView};
use crate::grammar::{parse_tag, spec_tag};
use crate::lang::{LangDesc, LangView};
use crate::predicate::{eval, CfgTag, Tag};
use crate::state::{all_enabled, top_prefix, CfgState, Frame};
use crate::text::{
    count_lead_space, count_trail_space, ends_with, is_blank, lead_ascii_space, lead_space,
    lemma_lead_space, range_ends_with, range_starts_with, skip_chars, skip_str, split_at_ws_end,
    starts_with, to_chars, trim_end, trim_start, lemma_trail_space,
};
use vstd::prelude::*;

verus! {

/// Why the pass over a file stopped.
#[derive(Debug, Clone, Copy, PartialEq, Eq, Structural)]
pub enum ToggleError {
    /// A directive line does not follow the grammar.
    DirectiveParseError,
    /// A closing directive stands where no scope is open.
    UnbalancedEnd,
    /// A content line does not begin with the whitespace of its scope.
    PrefixMismatch,
}

/// What one line yields: the stack after it and the line passed on.
pub type Stepped = Result<(Seq<Frame>, Seq<char>), ToggleError>;

/// What a sequence of lines yields: the stack after them and the lines passed on.
pub type Ran = Result<(Seq<Frame>, Seq<Seq<char>>), ToggleError>;

/// What a file yields: the lines passed on.
pub type Toggled = Result<Seq<Seq<char>>, ToggleError>;

impl ToggleError {
    /// The error in words.
    pub open spec fn text(self) -> Seq<char> {
        match self {
            ToggleError::DirectiveParseError => "malformed directive"@,
            ToggleError::UnbalancedEnd => "unexpected end"@,
            ToggleError::PrefixMismatch => "wrong prefix"@,
        }
    }

    /// The error in words.
    pub fn message(&self) -> (s: String)
        ensures
            s@ == self.text(),
    {
        match self {
            ToggleError::DirectiveParseError => "malformed directive".to_owned(),
            ToggleError::UnbalancedEnd => "unexpected end".to_owned(),
            ToggleError::PrefixMismatch => "wrong prefix".to_owned(),
        }
    }
}

/// Whether `line` is a directive line: behind its leading whitespace stands
/// the directive prefix, and before its trailing whitespace the suffix.
pub open spec fn is_directive(line: Seq<char>, d: LangView) -> bool {
    starts_with(trim_start(line), d.prefix) && ends_with(trim_end(line), d.suffix)
}

/// The leading whitespace that a directive line hands to its scope.
pub open spec fn indent(line: Seq<char>) -> Seq<char> {
    line.take(lead_ascii_space(line) as int)
}

/// The text of a directive line that the grammar is applied to.
pub open spec fn directive_text(line: Seq<char>, d: LangView) -> Seq<char> {
    skip_chars(line.skip(lead_ascii_space(line) as int), d.marker_len)
}

/// Whether a content line that begins with `prefix` is active: behind the
/// prefix it does not carry the comment marker.
pub open spec fn is_active(prefix: Seq<char>, line: Seq<char>, comment: Seq<char>) -> bool {
    !starts_with(line.skip(prefix.len() as int), comment)
}

/// A content line that begins with `prefix`, brought to the state `should`:
/// active (without the marker) or not (with it).
pub open spec fn rewrite(prefix: Seq<char>, line: Seq<char>, should: bool, comment: Seq<char>) -> Seq<
    char,
> {
    let body = line.skip(prefix.len() as int);
    if is_active(prefix, line, comment) == should {
        line
    } else if should {
        prefix + body.skip(comment.len() as int)
    } else {
        prefix + comment + body
    }
}

/// Whether content lines under `stack` are to be active.
pub open spec fn should_be_active(stack: Seq<Frame>, c: DataView) -> bool {
    c.reset || all_enabled(stack)
}

/// One line: the stack after it and the line that is passed on, or the
/// error that it raises.
pub open spec fn step(stack: Seq<Frame>, line: Seq<char>, c: DataView, d: LangView) -> Stepped {
    if is_directive(line, d) {
        match spec_tag(directive_text(line, d)) {
            None => Err(ToggleError::DirectiveParseError),
            Some(Tag::Start(g)) => Ok((stack.push((eval(g, c.features), indent(line))), line)),
            Some(Tag::End) => if stack.len() == 0 {
                Err(ToggleError::UnbalancedEnd)
            } else {
                Ok((stack.drop_last(), line))
            },
        }
    } else if is_blank(line) {
        Ok((stack, line))
    } else if !starts_with(line, top_prefix(stack)) {
        Err(ToggleError::PrefixMismatch)
    } else {
        Ok((stack, rewrite(top_prefix(stack), line, should_be_active(stack, c), d.comment)))
    }
}

/// The lines of a file in order, from `stack`: the stack at the end and the
/// lines passed on, or the error of the first line that raises one.
pub open spec fn run(stack: Seq<Frame>, lines: Seq<Seq<char>>, c: DataView, d: LangView) -> Ran
    decreases lines.len(),
{
    if lines.len() == 0 {
        Ok((stack, Seq::empty()))
    } else {
        match run(stack, lines.drop_last(), c, d) {
            Err(e) => Err(e),
            Ok((mid, out)) => match step(mid, lines.last(), c, d) {
                Err(e) => Err(e),
                Ok((end, o)) => Ok((end, out.push(o))),
            },
        }
    }
}

/// A whole file, from outside any scope: the lines passed on, or the error.
pub open spec fn toggle(lines: Seq<Seq<char>>, c: DataView, d: LangView) -> Toggled {
    match run(Seq::empty(), lines, c, d) {
        Err(e) => Err(e),
        Ok((_, out)) => Ok(out),
    }
}

/// The texts of `lines`.
pub open spec fn texts(lines: Seq<String>) -> Seq<Seq<char>> {
    Seq::new(lines.len(), |i: int| lines[i]@)
}

/// A line is blank exactly when its leading whitespace is all of it.
pub proof fn lemma_blank(s: Seq<char>)
    ensures
        is_blank(s) <==> lead_space(s) == s.len(),
{
    lemma_lead_space(s);
}

impl CfgState {
    /// Takes the next line of the file: updates the scopes and returns the
    /// line to pass on. On an error the scopes are left as they were.
    pub fn process_line(&mut self, line: String, config: &Data, desc: &LangDesc) -> (r: Result<
        String,
        ToggleError,
    >)
        ensures
            match r {
                Ok(out) => step(old(self)@, line@, config@, desc@) == Stepped::Ok(
                    (final(self)@, out@),
                ),
                Err(e) => {
                    &&& step(old(self)@, line@, config@, desc@) == Stepped::Err(e)
                    &&& final(self)@ == old(self)@
                },
            },
    {
        let v = to_chars(line.as_str());
        let n = v.len();
        let lead = count_lead_space(&v);
        let trail = count_trail_space(&v);
        let cfg_prefix = to_chars(desc.cfg_prefix.as_str());
        let cfg_suffix = to_chars(desc.cfg_suffix.as_str());
        proof {
            lemma_lead_space(v@);
            lemma_trail_space(v@);
            lemma_blank(v@);
            assert(v@.subrange(lead as int, n as int) =~= trim_start(line@));
            assert(v@.subrange(0, n - trail) =~= trim_end(line@));
        }
        if range_starts_with(&v, lead, n, &cfg_prefix) && range_ends_with(
            &v,
            0,
            n - trail,
            &cfg_suffix,
        ) {
            let (ws, cfg) = split_at_ws_end(line.as_str());
            match parse_tag(skip_str(cfg, desc.cfg_prefix_comment_len)) {
                Err(_) => Err(ToggleError::DirectiveParseError),
                Ok(CfgTag::Start(c)) => {
                    let enabled = c.matches(config);
                    self.push((enabled, ws.to_owned()));
                    Ok(line)
                },
                Ok(CfgTag::End) => match self.pop() {
                    None => Err(ToggleError::UnbalancedEnd),
                    Some(_) => Ok(line),
                },
            }
        } else if lead == n {
            Ok(line)
        } else {
            let prefix = self.prefix();
            let prefix_chars = to_chars(prefix.as_str());
            if !range_starts_with(&v, 0, n, &prefix_chars) {
                assert(v@.subrange(0, n as int) =~= v@);
                return Err(ToggleError::PrefixMismatch);
            }
            let comment = to_chars(desc.comment.as_str());
            let k = prefix_chars.len();
            let enabled = !range_starts_with(&v, k, n, &comment);
            let should_be = config.reset || self.enabled();
            proof {
                assert(v@.subrange(0, n as int) =~= v@);
                assert(v@.subrange(k as int, n as int) =~= line@.skip(k as int));
            }
            if !enabled && should_be {
                let rest = line.as_str().substring_char(k + comment.len(), n);
                let out = prefix.concat(rest);
                proof {
                    assert(line@.subrange(k + comment.len(), n as int) =~= line@.skip(
                        k as int,
                    ).skip(comment.len() as int));
                }
                Ok(out)
            } else if enabled && !should_be {
                let body = line.as_str().substring_char(k, n);
                let out = prefix.concat(desc.comment.as_str()).concat(body);
                Ok(out)
            } else {
                Ok(line)
            }
        }
    }
}

/// Toggles the lines of one file: one line out for each line in, or the
/// error of the first line that raises one. A scope that is still open at
/// the end of the file is let pass.
pub fn process(lines: Vec<String>, config: &Data, desc: &LangDesc) -> (r: Result<
    Vec<String>,
    ToggleError,
>)
    ensures
        match r {
            Ok(out) => toggle(texts(lines@), config@, desc@) == Toggled::Ok(texts(out@)),
            Err(e) => toggle(texts(lines@), config@, desc@) == Toggled::Err(e),
        },
{
    let ghost all = texts(lines@);
    let mut state = CfgState::new();
    let mut out: Vec<String> = Vec::new();
    assert(all.take(0) =~= Seq::empty());
    assert(texts(out@) =~= Seq::empty());
    for line in it: lines
        invariant
            it.seq() == lines@,
            all == texts(lines@),
            run(Seq::empty(), all.take(it.index() as int), config@, desc@) == Ran::Ok(
                (state@, texts(out@)),
            ),
    {
        let ghost before = texts(out@);
        let ghost i = it.index() as int;
        proof {
            assert(all.take(i + 1).drop_last() =~= all.take(i));
            assert(all.take(i + 1).last() == line@);
            lemma_run_stops(all, i + 1, config@, desc@);
        }
        match state.process_line(line, config, desc) {
            Err(e) => {
                return Err(e);
            },
            Ok(o) => {
                out.push(o);
                assert(texts(out@) =~= before.push(o@));
            },
        }
    }
    assert(all.take(lines@.len() as int) =~= all);
    Ok(out)
}

/// An error within the first `n` lines is the error of the whole run.
pub proof fn lemma_run_stops(lines: Seq<Seq<char>>, n: int, c: DataView, d: LangView)
    requires
        0 <= n <= lines.len(),
    ensures
        run(Seq::empty(), lines.take(n), c, d) matches Err(e) ==> run(Seq::empty(), lines, c, d)
            == Ran::Err(e),
    decreases lines.len() - n,
{
    if n < lines.len() {
        assert(lines.take(n + 1).drop_last() =~= lines.take(n));
        lemma_run_stops(lines, n + 1, c, d);
    } else {
        assert(lines.take(n) =~= lines);
    }
}

} // verus!
