//! The records of the KANJIDIC2 character dictionary.

use crate::text::{chars_of, str_eq, views};
use vstd::prelude::*;
use vstd::string::StrSliceExecFns;

verus! {

/// The character dictionary: its header and one record per character.
#[derive(Debug, Clone, PartialEq, Eq)]
pub struct Kanjidic2 {
    pub header: Header,
    pub character: Vec<Character>,
}

/// What the dictionary file says of itself.
#[derive(Debug, Clone, PartialEq, Eq)]
pub struct Header {
    /// The version of the dictionary file.
    pub file_version: String,
}

/// One character of the dictionary.
#[derive(Debug, Clone, PartialEq, Eq)]
pub struct Character {
    /// The character itself.
    pub literal: String,
    /// The readings and meanings of the character, where the dictionary gives any.
    pub reading_meaning: Option<ReadingMeaning>,
}

/// The readings and meanings of one character, in groups.
#[derive(Debug, Clone, PartialEq, Eq)]
pub struct ReadingMeaning {
    pub rmgroup: Vec<RmGroup>,
}

/// Readings that belong together with the meanings they carry.
#[derive(Debug, Clone, PartialEq, Eq)]
pub struct RmGroup {
    pub reading: Vec<Reading>,
    pub meaning: Vec<Meaning>,
}

/// A reading as the dictionary spells it, with the tag of its type.
#[derive(Debug, Clone, PartialEq, Eq)]
pub struct Reading {
    /// The type of the reading, `ja_on` and `ja_kun` among others.
    pub r_type: String,
    pub value: String,
}

/// A meaning in one language.
#[derive(Debug, Clone, PartialEq, Eq)]
pub struct Meaning {
    /// The language of the meaning; unset for English.
    pub m_lang: Option<String>,
    pub value: String,
}

/// What a [`Kanjidic2`] holds, as plain text.
pub struct Kanjidic2View {
    pub header: HeaderView,
    pub character: Seq<CharacterView>,
}

/// What a [`Header`] holds, as plain text.
pub struct HeaderView {
    pub file_version: Seq<char>,
}

/// What a [`Character`] holds, as plain text.
pub struct CharacterView {
    pub literal: Seq<char>,
    pub reading_meaning: Option<ReadingMeaningView>,
}

/// What a [`ReadingMeaning`] holds, as plain text.
pub struct ReadingMeaningView {
    pub rmgroup: Seq<RmGroupView>,
}

/// What an [`RmGroup`] holds, as plain text.
pub struct RmGroupView {
    pub reading: Seq<ReadingView>,
    pub meaning: Seq<MeaningView>,
}

/// What a [`Reading`] holds, as plain text.
pub struct ReadingView {
    pub r_type: Seq<char>,
    pub value: Seq<char>,
}

/// What a [`Meaning`] holds, as plain text.
pub struct MeaningView {
    pub m_lang: Option<Seq<char>>,
    pub value: Seq<char>,
}

impl View for Kanjidic2 {
    type V = Kanjidic2View;

    open spec fn view(&self) -> Kanjidic2View {
        Kanjidic2View { header: self.header@, character: views(self.character@) }
    }
}

impl View for Header {
    type V = HeaderView;

    open spec fn view(&self) -> HeaderView {
        HeaderView { file_version: self.file_version@ }
    }
}

impl View for Character {
    type V = CharacterView;

    open spec fn view(&self) -> CharacterView {
        CharacterView {
            literal: self.literal@,
            reading_meaning: match self.reading_meaning {
                Some(rm) => Some(rm@),
                None => None,
            },
        }
    }
}

impl View for ReadingMeaning {
    type V = ReadingMeaningView;

    open spec fn view(&self) -> ReadingMeaningView {
        ReadingMeaningView { rmgroup: views(self.rmgroup@) }
    }
}

impl View for RmGroup {
    type V = RmGroupView;

    open spec fn view(&self) -> RmGroupView {
        RmGroupView { reading: views(self.reading@), meaning: views(self.meaning@) }
    }
}

impl View for Reading {
    type V = ReadingView;

    open spec fn view(&self) -> ReadingView {
        ReadingView { r_type: self.r_type@, value: self.value@ }
    }
}

impl View for Meaning {
    type V = MeaningView;

    open spec fn view(&self) -> MeaningView {
        MeaningView {
            m_lang: match self.m_lang {
                Some(l) => Some(l@),
                None => None,
            },
            value: self.value@,
        }
    }
}

/// The two kinds of reading that a kanji has in Japanese.
#[derive(Debug, Clone, Copy, PartialEq, Eq)]
pub enum ReadingKind {
    /// A reading that came with the character from Chinese.
    Onyomi,
    /// A native Japanese reading.
    Kunyomi,
}

/// Where a kanji stands in a word when it is read a certain way.
#[derive(Debug, Clone, Copy, PartialEq, Eq)]
pub enum Position {
    /// At the start: something follows the kanji.
    Prefix,
    /// At the end: something precedes the kanji.
    Suffix,
}

/// A reading without the marks that the dictionary writes into it.
#[derive(Debug, Clone, PartialEq, Eq)]
pub struct Classified {
    pub kind: ReadingKind,
    /// The part of the reading that the kanji itself stands for.
    pub reading: String,
    /// The kana that follow the kanji when it is read this way.
    pub okurigana: Option<String>,
    pub position: Option<Position>,
}

/// What a [`Classified`] holds, as plain text.
pub struct ClassifiedView {
    pub kind: ReadingKind,
    pub reading: Seq<char>,
    pub okurigana: Option<Seq<char>>,
    pub position: Option<Position>,
}

impl View for Classified {
    type V = ClassifiedView;

    open spec fn view(&self) -> ClassifiedView {
        ClassifiedView {
            kind: self.kind,
            reading: self.reading@,
            okurigana: match self.okurigana {
                Some(o) => Some(o@),
                None => None,
            },
            position: self.position,
        }
    }
}

/// The kind of reading that a type tag names: `ja_on` and `ja_kun` name one,
/// no other tag does.
pub open spec fn kind_of(r_type: Seq<char>) -> Option<ReadingKind> {
    if r_type == "ja_on"@ {
        Some(ReadingKind::Onyomi)
    } else if r_type == "ja_kun"@ {
        Some(ReadingKind::Kunyomi)
    } else {
        None
    }
}

/// Where the hyphens of a reading put the kanji: a hyphen in front makes the
/// reading that of a suffix, a hyphen behind that of a prefix.
pub open spec fn position_of(value: Seq<char>) -> Option<Position> {
    if value.len() > 0 && value.first() == '-' {
        Some(Position::Suffix)
    } else if value.len() > 0 && value.last() == '-' {
        Some(Position::Prefix)
    } else {
        None
    }
}

/// A reading without the hyphen in front of it and the hyphen behind it.
pub open spec fn without_hyphens(value: Seq<char>) -> Seq<char> {
    let from: int = if value.len() > 0 && value.first() == '-' {
        1
    } else {
        0
    };
    let to: int = if value.len() > from && value.last() == '-' {
        value.len() - 1
    } else {
        value.len() as int
    };
    value.subrange(from, to)
}

/// Where the first dot of a text stands.
pub open spec fn first_dot(text: Seq<char>) -> Option<int>
    decreases text.len(),
{
    if text.len() == 0 {
        None
    } else {
        match first_dot(text.drop_last()) {
            Some(at) => Some(at),
            None => if text.last() == '.' {
                Some(text.len() - 1)
            } else {
                None
            },
        }
    }
}

/// What a reading of the dictionary says once its marks are read: its kind
/// from the type tag, the position from its hyphens, and the text between
/// the hyphens, which the first dot parts into the reading and the okurigana.
pub open spec fn classified(r_type: Seq<char>, value: Seq<char>) -> Option<ClassifiedView> {
    match kind_of(r_type) {
        None => None,
        Some(kind) => {
            let text = without_hyphens(value);
            Some(
                match first_dot(text) {
                    Some(at) => ClassifiedView {
                        kind,
                        reading: text.subrange(0, at),
                        okurigana: Some(text.subrange(at + 1, text.len() as int)),
                        position: position_of(value),
                    },
                    None => ClassifiedView {
                        kind,
                        reading: text,
                        okurigana: None,
                        position: position_of(value),
                    },
                },
            )
        },
    }
}

proof fn lemma_first_dot(text: Seq<char>)
    ensures
        match first_dot(text) {
            Some(at) => 0 <= at < text.len() && text[at] == '.' && forall|k: int|
                0 <= k < at ==> text[k] != '.',
            None => forall|k: int| 0 <= k < text.len() ==> text[k] != '.',
        },
    decreases text.len(),
{
    if text.len() > 0 {
        lemma_first_dot(text.drop_last());
        assert forall|k: int| 0 <= k < text.len() - 1 implies text[k] == text.drop_last()[k] by {}
    }
}

proof fn lemma_first_dot_found(text: Seq<char>, at: int)
    requires
        0 <= at < text.len(),
        text[at] == '.',
        forall|k: int| 0 <= k < at ==> text[k] != '.',
    ensures
        first_dot(text) == Some(at),
{
    lemma_first_dot(text);
}

impl Reading {
    /// Reads the marks of the reading. A reading that is neither an on'yomi
    /// nor a kun'yomi has no classification.
    pub fn classify(&self) -> (r: Option<Classified>)
        ensures
            match r {
                Some(c) => classified(self.r_type@, self.value@) == Some(c@),
                None => classified(self.r_type@, self.value@) is None,
            },
    {
        let kind = if str_eq(self.r_type.as_str(), "ja_on") {
            ReadingKind::Onyomi
        } else if str_eq(self.r_type.as_str(), "ja_kun") {
            ReadingKind::Kunyomi
        } else {
            return None;
        };
        let value = self.value.as_str();
        let chars = chars_of(value);
        let n: usize = chars.len();
        let from: usize = if n > 0 && chars[0] == '-' {
            1
        } else {
            0
        };
        let to: usize = if n > from && chars[n - 1] == '-' {
            n - 1
        } else {
            n
        };
        let position = if from == 1 {
            Some(Position::Suffix)
        } else if n > 0 && chars[n - 1] == '-' {
            Some(Position::Prefix)
        } else {
            None
        };
        let ghost text = without_hyphens(value@);
        assert(text == value@.subrange(from as int, to as int));
        let mut at: usize = from;
        while at < to && chars[at] != '.'
            invariant
                from <= at <= to <= n,
                n == chars.len(),
                chars@ == value@,
                text == value@.subrange(from as int, to as int),
                forall|k: int| 0 <= k < at - from ==> text[k] != '.',
            decreases to - at,
        {
            at += 1;
        }
        proof {
            lemma_first_dot(text);
            if at < to {
                lemma_first_dot_found(text, at - from);
            }
        }
        if at < to {
            let reading = value.substring_char(from, at).to_owned();
            let okurigana = value.substring_char(at + 1, to).to_owned();
            proof {
                assert(reading@ =~= text.subrange(0, at - from));
                assert(okurigana@ =~= text.subrange(at - from + 1, text.len() as int));
            }
            Some(Classified { kind, reading, okurigana: Some(okurigana), position })
        } else {
            let reading = value.substring_char(from, to).to_owned();
            Some(Classified { kind, reading, okurigana: None, position })
        }
    }
}

} // verus!
