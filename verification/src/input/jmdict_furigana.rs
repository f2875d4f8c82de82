//! The records of the furigana file that accompanies the JMdict.

use crate::text::views;
use vstd::prelude::*;

verus! {

/// How one written form is read, segment by segment.
#[derive(Debug, Clone, PartialEq, Eq)]
pub struct Furigana {
    /// The written form.
    pub text: String,
    /// Its reading in kana.
    pub reading: String,
    /// The written form cut into segments, from left to right.
    pub furigana: Vec<Ruby>,
}

/// One segment of a written form.
#[derive(Debug, Clone, PartialEq, Eq)]
pub struct Ruby {
    /// The text of the segment.
    pub ruby: String,
    /// How the segment is read, where it is annotated.
    pub rt: Option<String>,
}

/// What a [`Furigana`] holds, as plain text.
pub struct FuriganaView {
    pub text: Seq<char>,
    pub reading: Seq<char>,
    pub furigana: Seq<RubyView>,
}

/// What a [`Ruby`] holds, as plain text.
pub struct RubyView {
    pub ruby: Seq<char>,
    pub rt: Option<Seq<char>>,
}

impl View for Furigana {
    type V = FuriganaView;

    open spec fn view(&self) -> FuriganaView {
        FuriganaView {
            text: self.text@,
            reading: self.reading@,
            furigana: views(self.furigana@),
        }
    }
}

impl View for Ruby {
    type V = RubyView;

    open spec fn view(&self) -> RubyView {
        RubyView {
            ruby: self.ruby@,
            rt: match self.rt {
                Some(rt) => Some(rt@),
                None => None,
            },
        }
    }
}

} // verus!
