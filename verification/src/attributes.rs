//! The lines of an attributes file that hand files to the filter, one for
//! each extension of a language table.

use crate::lang::{LangDesc, LangTable};
use crate::toggle::texts;
use vstd::prelude::*;

verus! {

/// The line that hands files with `extension` to the filter.
pub open spec fn line_for(extension: Seq<char>) -> Seq<char> {
    "*."@ + extension + " filter=cfgcomment"@
}

/// Of the lines for the extensions of `entries`, in their order, those that
/// are not in `present`, each once.
pub open spec fn missing(entries: Seq<(String, LangDesc)>, present: Seq<Seq<char>>) -> Seq<
    Seq<char>,
>
    decreases entries.len(),
{
    if entries.len() == 0 {
        Seq::empty()
    } else {
        let front = missing(entries.drop_last(), present);
        let line = line_for(entries.last().0@);
        if present.contains(line) || front.contains(line) {
            front
        } else {
            front.push(line)
        }
    }
}

/// The line that hands files with `extension` to the filter.
pub fn attribute_line(extension: &str) -> (line: String)
    ensures
        line@ == line_for(extension@),
{
    "*.".to_owned().concat(extension).concat(" filter=cfgcomment")
}

/// Whether `line` is among `lines`.
pub fn has_line(lines: &Vec<String>, line: &String) -> (b: bool)
    ensures
        b == texts(lines@).contains(line@),
{
    let mut i: usize = 0;
    while i < lines.len()
        invariant
            i <= lines@.len(),
            forall|j: int| 0 <= j < i ==> #[trigger] texts(lines@)[j] != line@,
        decreases lines@.len() - i,
    {
        if lines[i] == *line {
            assert(texts(lines@)[i as int] == line@);
            return true;
        }
        i += 1;
    }
    false
}

/// The lines to add to an attributes file that holds `present`, so that it
/// hands the files of every extension of `table` to the filter.
pub fn missing_attribute_lines(table: &LangTable, present: &Vec<String>) -> (r: Vec<String>)
    ensures
        texts(r@) == missing(table.entries@, texts(present@)),
{
    let mut out: Vec<String> = Vec::new();
    let mut i: usize = 0;
    assert(table.entries@.take(0) =~= Seq::empty());
    assert(texts(out@) =~= Seq::empty());
    while i < table.entries.len()
        invariant
            i <= table.entries@.len(),
            texts(out@) == missing(table.entries@.take(i as int), texts(present@)),
        decreases table.entries@.len() - i,
    {
        let ghost before = texts(out@);
        proof {
            assert(table.entries@.take(i + 1).drop_last() =~= table.entries@.take(i as int));
        }
        let line = attribute_line(table.entries[i].0.as_str());
        if !has_line(present, &line) && !has_line(&out, &line) {
            out.push(line);
            assert(texts(out@) =~= before.push(line@));
        }
        i += 1;
    }
    assert(table.entries@.take(i as int) =~= table.entries@);
    out
}

} // verus!
