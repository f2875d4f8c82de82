//! The records of the JMdict word dictionary.

use crate::text::{chars_of, find_first, holds, stands_at, stands_first_at, views};
use vstd::prelude::*;
use vstd::string::StrSliceExecFns;

verus! {

/// The word dictionary: one record per entry.
#[derive(Debug, Clone, PartialEq, Eq)]
pub struct JMdict {
    pub entry: Vec<Entry>,
}

/// One entry of the dictionary.
#[derive(Debug, Clone, PartialEq, Eq)]
pub struct Entry {
    /// The sequence number of the entry, in decimal digits.
    pub ent_seq: String,
    /// The written forms of the entry that hold kanji.
    pub k_ele: Vec<KEle>,
    /// The readings of the entry.
    pub r_ele: Vec<REle>,
    /// The senses of the entry.
    pub sense: Vec<Sense>,
}

/// A written form that holds kanji.
#[derive(Debug, Clone, PartialEq, Eq)]
pub struct KEle {
    pub keb: String,
    /// Remarks on how the written form is used.
    pub ke_inf: Vec<String>,
}

/// A reading in kana.
#[derive(Debug, Clone, PartialEq, Eq)]
pub struct REle {
    pub reb: String,
    /// The written forms that the reading applies to; all of them where this is empty.
    pub re_restr: Vec<String>,
}

/// One sense of an entry.
#[derive(Debug, Clone, PartialEq, Eq)]
pub struct Sense {
    /// The written forms that the sense applies to; all of them where this is empty.
    pub stagk: Vec<String>,
    /// The readings that the sense applies to; all of them where this is empty.
    pub stagr: Vec<String>,
    /// Remarks on how the word is used in this sense.
    pub misc: Vec<String>,
    pub gloss: Vec<Gloss>,
}

/// A sense put into one language.
#[derive(Debug, Clone, PartialEq, Eq)]
pub struct Gloss {
    /// The language of the gloss; unset for English.
    pub lang: Option<String>,
    pub value: String,
}

/// What a [`JMdict`] holds, as plain text.
pub struct JMdictView {
    pub entry: Seq<EntryView>,
}

/// What an [`Entry`] holds, as plain text.
pub struct EntryView {
    pub ent_seq: Seq<char>,
    pub k_ele: Seq<KEleView>,
    pub r_ele: Seq<REleView>,
    pub sense: Seq<SenseView>,
}

/// What a [`KEle`] holds, as plain text.
pub struct KEleView {
    pub keb: Seq<char>,
    pub ke_inf: Seq<Seq<char>>,
}

/// What an [`REle`] holds, as plain text.
pub struct REleView {
    pub reb: Seq<char>,
    pub re_restr: Seq<Seq<char>>,
}

/// What a [`Sense`] holds, as plain text.
pub struct SenseView {
    pub stagk: Seq<Seq<char>>,
    pub stagr: Seq<Seq<char>>,
    pub misc: Seq<Seq<char>>,
    pub gloss: Seq<GlossView>,
}

/// What a [`Gloss`] holds, as plain text.
pub struct GlossView {
    pub lang: Option<Seq<char>>,
    pub value: Seq<char>,
}

impl View for JMdict {
    type V = JMdictView;

    open spec fn view(&self) -> JMdictView {
        JMdictView { entry: views(self.entry@) }
    }
}

impl View for Entry {
    type V = EntryView;

    open spec fn view(&self) -> EntryView {
        EntryView {
            ent_seq: self.ent_seq@,
            k_ele: views(self.k_ele@),
            r_ele: views(self.r_ele@),
            sense: views(self.sense@),
        }
    }
}

impl View for KEle {
    type V = KEleView;

    open spec fn view(&self) -> KEleView {
        KEleView { keb: self.keb@, ke_inf: views(self.ke_inf@) }
    }
}

impl View for REle {
    type V = REleView;

    open spec fn view(&self) -> REleView {
        REleView { reb: self.reb@, re_restr: views(self.re_restr@) }
    }
}

impl View for Sense {
    type V = SenseView;

    open spec fn view(&self) -> SenseView {
        SenseView {
            stagk: views(self.stagk@),
            stagr: views(self.stagr@),
            misc: views(self.misc@),
            gloss: views(self.gloss@),
        }
    }
}

impl View for Gloss {
    type V = GlossView;

    open spec fn view(&self) -> GlossView {
        GlossView {
            lang: match self.lang {
                Some(l) => Some(l@),
                None => None,
            },
            value: self.value@,
        }
    }
}

/// What precedes the revision of the JMdict in the comment that states it.
pub open spec fn revision_marker() -> Seq<char> {
    "<!-- Rev "@
}

/// How many of the leading lines of a JMdict file are searched for its revision.
pub const REVISION_LINES: usize = 10;

/// Whether `found` is the revision that a line states: what follows the
/// first marker in the line, up to the end of the line.
pub open spec fn is_revision_in(line: Seq<char>, found: Seq<char>) -> bool {
    exists|at: int| #[trigger]
        stands_first_at(line, revision_marker(), at) && found == line.subrange(
            at + revision_marker().len(),
            line.len() as int,
        )
}

/// The revision that one line of a JMdict file states, if it states one.
pub fn revision_in(line: &str) -> (r: Option<String>)
    ensures
        match r {
            Some(found) => is_revision_in(line@, found@),
            None => !holds(line@, revision_marker()),
        },
{
    let chars = chars_of(line);
    let marker = chars_of("<!-- Rev ");
    match find_first(&chars, &marker) {
        Some(at) => {
            let end: usize = chars.len();
            let width: usize = marker.len();
            assert(at + width <= end) by {
                assert(stands_at(chars@, marker@, at as int));
            }
            let found = line.substring_char(at + width, end).to_owned();
            assert(stands_first_at(line@, revision_marker(), at as int));
            Some(found)
        },
        None => None,
    }
}

/// The revision that a JMdict file states: that of the first line that states
/// one, among as many leading lines as [`REVISION_LINES`] says.
pub fn revision(lines: &Vec<String>) -> (r: Option<String>)
    ensures
        match r {
            Some(found) => exists|i: int|
                0 <= i < lines.len() && i < REVISION_LINES && is_revision_in(
                    #[trigger] lines[i]@,
                    found@,
                ) && forall|k: int| 0 <= k < i ==> !holds(#[trigger] lines[k]@, revision_marker()),
            None => forall|k: int|
                0 <= k < lines.len() && k < REVISION_LINES ==> !holds(
                    #[trigger] lines[k]@,
                    revision_marker(),
                ),
        },
{
    let mut i: usize = 0;
    while i < lines.len() && i < REVISION_LINES
        invariant
            i <= lines.len(),
            i <= REVISION_LINES,
            forall|k: int| 0 <= k < i ==> !holds(#[trigger] lines[k]@, revision_marker()),
        decreases lines.len() - i,
    {
        if let Some(found) = revision_in(lines[i].as_str()) {
            return Some(found);
        }
        i += 1;
    }
    None
}

} // verus!
