//! The data types of the wordfile.

use crate::text::views;
use vstd::prelude::*;

verus! {

/// Models the full contents of the wordfile.
#[derive(Debug, Clone, PartialEq, Eq)]
pub struct Wordfile {
    pub header: Header,
    pub words: Vec<Word>,
}

/// Contains metadata about the wordfile.
#[derive(Debug, Clone, PartialEq, Eq)]
pub struct Header {
    /// The version of the wordfile.
    pub version: String,
    /// The version of the JMdict that was used as the base for the wordfile.
    pub jmdict_version: String,
}

/// A single word of the wordfile.
#[derive(Debug, Clone, PartialEq, Eq)]
pub struct Word {
    /// A stable identifier for the word within the wordfile.
    pub id: u32,
    /// The identifier (`seq`) for the corresponding word within JMdict, if any.
    pub jmdict_id: Option<u32>,
    /// Different written forms for the same word.
    pub written_forms: Vec<String>,
    /// The different meanings of the word in English.
    pub meanings: Vec<String>,
    /// Different readings for the same word.
    pub readings: Vec<Reading>,
}

/// Information on a single reading for a word.
#[derive(Debug, Clone, PartialEq, Eq)]
pub struct Reading {
    /// The reading itself in kana.
    pub reading: String,
    /// The reading split into furigana assigned for each kanji section of the word.
    pub furigana: Vec<Furigana>,
    /// Indicates whether this reading is usually written using kana.
    pub usually_kana: bool,
}

/// Maps a reading to a section of kanji within a word.
#[derive(Debug, Clone, PartialEq, Eq)]
pub struct Furigana {
    /// The start index for the section of kanji.
    pub start_idx: usize,
    /// The end index for the section of kanji.
    pub end_idx: usize,
    /// The portion of the reading that maps to the section of kanji.
    pub furigana: String,
}

/// What a [`Header`] holds, as plain text.
pub struct HeaderView {
    pub version: Seq<char>,
    pub jmdict_version: Seq<char>,
}

/// What a [`Furigana`] holds, as plain text.
pub struct FuriganaView {
    pub start_idx: usize,
    pub end_idx: usize,
    pub furigana: Seq<char>,
}

/// What a [`Reading`] holds, as plain text.
pub struct ReadingView {
    pub reading: Seq<char>,
    pub furigana: Seq<FuriganaView>,
    pub usually_kana: bool,
}

/// What a [`Word`] holds, as plain text.
pub struct WordView {
    pub id: u32,
    pub jmdict_id: Option<u32>,
    pub written_forms: Seq<Seq<char>>,
    pub meanings: Seq<Seq<char>>,
    pub readings: Seq<ReadingView>,
}

/// What a [`Wordfile`] holds, as plain text.
pub struct WordfileView {
    pub header: HeaderView,
    pub words: Seq<WordView>,
}

impl View for Header {
    type V = HeaderView;

    open spec fn view(&self) -> HeaderView {
        HeaderView { version: self.version@, jmdict_version: self.jmdict_version@ }
    }
}

impl View for Furigana {
    type V = FuriganaView;

    open spec fn view(&self) -> FuriganaView {
        FuriganaView {
            start_idx: self.start_idx,
            end_idx: self.end_idx,
            furigana: self.furigana@,
        }
    }
}

impl View for Reading {
    type V = ReadingView;

    open spec fn view(&self) -> ReadingView {
        ReadingView {
            reading: self.reading@,
            furigana: views(self.furigana@),
            usually_kana: self.usually_kana,
        }
    }
}

impl View for Word {
    type V = WordView;

    open spec fn view(&self) -> WordView {
        WordView {
            id: self.id,
            jmdict_id: self.jmdict_id,
            written_forms: views(self.written_forms@),
            meanings: views(self.meanings@),
            readings: views(self.readings@),
        }
    }
}

impl View for Wordfile {
    type V = WordfileView;

    open spec fn view(&self) -> WordfileView {
        WordfileView { header: self.header@, words: views(self.words@) }
    }
}

impl WordfileView {
    /// The wordfile that holds no word and names no version.
    pub open spec fn blank() -> WordfileView {
        WordfileView {
            header: HeaderView { version: Seq::empty(), jmdict_version: Seq::empty() },
            words: Seq::empty(),
        }
    }
}

impl WordView {
    /// An entry that holds nothing but its identity and its written forms.
    pub open spec fn bare(id: u32, jmdict_id: u32, written_forms: Seq<Seq<char>>) -> WordView {
        WordView {
            id,
            jmdict_id: Some(jmdict_id),
            written_forms,
            meanings: Seq::empty(),
            readings: Seq::empty(),
        }
    }
}

/// The largest id among the entries, 0 where there is none.
pub open spec fn max_id(words: Seq<WordView>) -> int
    decreases words.len(),
{
    if words.len() == 0 {
        0
    } else {
        let rest = max_id(words.drop_last());
        if words.last().id > rest {
            words.last().id as int
        } else {
            rest
        }
    }
}

/// Whether no two entries share an id.
pub open spec fn unique_ids(words: Seq<WordView>) -> bool {
    forall|i: int, j: int|
        0 <= i < j < words.len() ==> (#[trigger] words[i]).id != (#[trigger] words[j]).id
}

/// No entry has an id above the largest.
pub proof fn lemma_max_id_bounds(words: Seq<WordView>, i: int)
    requires
        0 <= i < words.len(),
    ensures
        words[i].id <= max_id(words),
    decreases words.len(),
{
    if i < words.len() - 1 {
        lemma_max_id_bounds(words.drop_last(), i);
    }
}

} // verus!
