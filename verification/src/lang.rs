//! Language descriptors: the tokens by which a language's directives and
//! disabled lines are recognised, and the table that finds them by file
//! extension.

use vstd::prelude::*;

verus! {

/// The tokens of one language.
#[derive(Debug)]
pub struct LangDesc {
    /// What a directive line begins with, once leading whitespace is set aside.
    pub cfg_prefix: String,
    /// How many characters at the start of a directive belong to the
    /// language's comment opener and are skipped before the grammar applies.
    pub cfg_prefix_comment_len: usize,
    /// What a directive line ends with, once trailing whitespace is set aside.
    pub cfg_suffix: String,
    /// The marker that a disabled content line carries in front of its text.
    pub comment: String,
}

/// A descriptor as contracts see it.
pub ghost struct LangView {
    pub prefix: Seq<char>,
    pub marker_len: nat,
    pub suffix: Seq<char>,
    pub comment: Seq<char>,
}

impl View for LangDesc {
    type V = LangView;

    open spec fn view(&self) -> LangView {
        LangView {
            prefix: self.cfg_prefix@,
            marker_len: self.cfg_prefix_comment_len as nat,
            suffix: self.cfg_suffix@,
            comment: self.comment@,
        }
    }
}

impl Clone for LangDesc {
    fn clone(&self) -> (r: Self)
        ensures
            r@ == self@,
    {
        LangDesc {
            cfg_prefix: self.cfg_prefix.clone(),
            cfg_prefix_comment_len: self.cfg_prefix_comment_len,
            cfg_suffix: self.cfg_suffix.clone(),
            comment: self.comment.clone(),
        }
    }
}

/// The descriptors known by file extension (written without the dot).
///
/// Entries are kept in the order they were added; of two entries for one
/// extension the later one counts.
pub struct LangTable {
    pub entries: Vec<(String, LangDesc)>,
}

/// The map that a sequence of entries stands for.
pub open spec fn table_of(entries: Seq<(String, LangDesc)>) -> Map<Seq<char>, LangView>
    decreases entries.len(),
{
    if entries.len() == 0 {
        Map::empty()
    } else {
        table_of(entries.drop_last()).insert(entries.last().0@, entries.last().1@)
    }
}

impl View for LangTable {
    type V = Map<Seq<char>, LangView>;

    open spec fn view(&self) -> Map<Seq<char>, LangView> {
        table_of(self.entries@)
    }
}

impl LangTable {
    /// A table without entries.
    pub fn new() -> (t: LangTable)
        ensures
            t@ == Map::<Seq<char>, LangView>::empty(),
    {
        LangTable { entries: Vec::new() }
    }

    /// Adds the descriptor for `extension`, in place of an earlier one.
    pub fn insert(&mut self, extension: String, desc: LangDesc)
        ensures
            final(self)@ == old(self)@.insert(extension@, desc@),
    {
        let ghost before = self.entries@;
        self.entries.push((extension, desc));
        assert(self.entries@.drop_last() =~= before);
    }

    /// The descriptor for `extension`, if the table holds one.
    pub fn get(&self, extension: &str) -> (r: Option<&LangDesc>)
        ensures
            match r {
                Some(d) => self@.contains_key(extension@) && self@[extension@] == d@,
                None => !self@.contains_key(extension@),
            },
    {
        let wanted = extension.to_owned();
        let mut i: usize = self.entries.len();
        assert(self.entries@.take(i as int) =~= self.entries@);
        while i > 0
            invariant
                i <= self.entries@.len(),
                wanted@ == extension@,
                self@.contains_key(extension@) <==> table_of(
                    self.entries@.take(i as int),
                ).contains_key(extension@),
                self@.contains_key(extension@) ==> self@[extension@] == table_of(
                    self.entries@.take(i as int),
                )[extension@],
            decreases i,
        {
            proof {
                assert(self.entries@.take(i as int).drop_last() =~= self.entries@.take(i - 1));
            }
            i -= 1;
            if self.entries[i].0 == wanted {
                return Some(&self.entries[i].1);
            }
        }
        proof {
            assert(self.entries@.take(0) =~= Seq::empty());
        }
        None
    }
}

/// The tokens of languages whose line comments open with two slashes:
/// directives read `//[cfg(..)]`, disabled lines carry `//# `.
pub open spec fn slashes_view() -> LangView {
    LangView { prefix: "//["@, marker_len: 2, suffix: "]"@, comment: "//# "@ }
}

impl LangDesc {
    /// The descriptor of languages whose line comments open with two slashes.
    pub fn slashes() -> (d: LangDesc)
        ensures
            d@ == slashes_view(),
    {
        LangDesc {
            cfg_prefix: "//[".to_owned(),
            cfg_prefix_comment_len: 2,
            cfg_suffix: "]".to_owned(),
            comment: "//# ".to_owned(),
        }
    }

    /// The built-in table.
    pub fn default_list() -> (t: LangTable)
        ensures
            t@.dom() == set!["rs"@],
            t@["rs"@] == slashes_view(),
    {
        let mut t = LangTable::new();
        t.insert("rs".to_owned(), LangDesc::slashes());
        assert(t@.dom() =~= set!["rs"@]);
        t
    }
}

} // verus!
