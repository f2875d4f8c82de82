//! The data types of the kanjifile.

use crate::text::views;
use vstd::prelude::*;

verus! {

/// Models the full contents of the kanjifile.
#[derive(Debug, Clone, PartialEq, Eq)]
pub struct Kanjifile {
    pub header: Header,
    pub kanji: Vec<Kanji>,
}

/// Contains metadata about the kanjifile.
#[derive(Debug, Clone, PartialEq, Eq)]
pub struct Header {
    /// The version of the kanjifile.
    pub version: String,
    /// The version of the KANJIDIC2 that was used as the base for the kanjifile.
    pub kanjidic2_version: String,
}

/// A single kanji of the kanjifile.
#[derive(Debug, Clone, PartialEq, Eq)]
pub struct Kanji {
    /// A stable identifier for the kanji within the kanjifile.
    pub id: u16,
    /// The kanji itself.
    pub kanji: String,
    /// The components of the kanji.
    /// Note that these are not canonical or "official", but may be helpful nonetheless.
    pub components: Vec<String>,
    /// A name of the kanji.
    /// Note that this name exists only to associate the character with some English name
    /// to help with retaining it in memory and is not in any way official.
    pub name: Option<String>,
    /// A list of meanings of the kanji in English.
    pub meanings: Vec<String>,
    /// A list of kanji that are visually similar to this kanji.
    /// For example, 人 and 入 are often confused by learners.
    pub similar: Vec<String>,
}

/// What a [`Header`] holds, as plain text.
pub struct HeaderView {
    pub version: Seq<char>,
    pub kanjidic2_version: Seq<char>,
}

/// What a [`Kanji`] holds, as plain text.
pub struct KanjiView {
    pub id: u16,
    pub kanji: Seq<char>,
    pub components: Seq<Seq<char>>,
    pub name: Option<Seq<char>>,
    pub meanings: Seq<Seq<char>>,
    pub similar: Seq<Seq<char>>,
}

/// What a [`Kanjifile`] holds, as plain text.
pub struct KanjifileView {
    pub header: HeaderView,
    pub kanji: Seq<KanjiView>,
}

impl View for Header {
    type V = HeaderView;

    open spec fn view(&self) -> HeaderView {
        HeaderView { version: self.version@, kanjidic2_version: self.kanjidic2_version@ }
    }
}

impl View for Kanji {
    type V = KanjiView;

    open spec fn view(&self) -> KanjiView {
        KanjiView {
            id: self.id,
            kanji: self.kanji@,
            components: views(self.components@),
            name: match self.name {
                Some(n) => Some(n@),
                None => None,
            },
            meanings: views(self.meanings@),
            similar: views(self.similar@),
        }
    }
}

impl View for Kanjifile {
    type V = KanjifileView;

    open spec fn view(&self) -> KanjifileView {
        KanjifileView { header: self.header@, kanji: views(self.kanji@) }
    }
}

impl KanjifileView {
    /// The kanjifile that holds no entry and names no version.
    pub open spec fn blank() -> KanjifileView {
        KanjifileView {
            header: HeaderView { version: Seq::empty(), kanjidic2_version: Seq::empty() },
            kanji: Seq::empty(),
        }
    }
}

impl KanjiView {
    /// An entry that holds nothing but its identity.
    pub open spec fn bare(id: u16, kanji: Seq<char>) -> KanjiView {
        KanjiView {
            id,
            kanji,
            components: Seq::empty(),
            name: None,
            meanings: Seq::empty(),
            similar: Seq::empty(),
        }
    }
}

/// The largest id among the entries, 0 where there is none.
pub open spec fn max_id(kanji: Seq<KanjiView>) -> int
    decreases kanji.len(),
{
    if kanji.len() == 0 {
        0
    } else {
        let rest = max_id(kanji.drop_last());
        if kanji.last().id > rest {
            kanji.last().id as int
        } else {
            rest
        }
    }
}

/// The set of the literals of the entries.
pub open spec fn literals(kanji: Seq<KanjiView>) -> Set<Seq<char>> {
    Set::new(|l: Seq<char>| exists|i: int| 0 <= i < kanji.len() && #[trigger] kanji[i].kanji == l)
}

/// Whether no two entries share an id and no two share a literal.
pub open spec fn unique(kanji: Seq<KanjiView>) -> bool {
    forall|i: int, j: int|
        0 <= i < j < kanji.len() ==> (#[trigger] kanji[i]).id != (#[trigger] kanji[j]).id
            && kanji[i].kanji != kanji[j].kanji
}

/// No entry has an id above the largest.
pub proof fn lemma_max_id_bounds(kanji: Seq<KanjiView>, i: int)
    requires
        0 <= i < kanji.len(),
    ensures
        kanji[i].id <= max_id(kanji),
    decreases kanji.len(),
{
    if i < kanji.len() - 1 {
        lemma_max_id_bounds(kanji.drop_last(), i);
    }
}

} // verus!
