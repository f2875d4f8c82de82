//! The records of the KRADFILE, which lists the components of each kanji.

use crate::text::{chars_of, find_first, holds, stands_at, stands_first_at, views};
use vstd::prelude::*;
use vstd::string::StrSliceExecFns;

verus! {

/// The components of every kanji that the file knows.
#[derive(Debug, Clone, PartialEq, Eq)]
pub struct Kradfile {
    /// One record per kanji. Where two records name the same kanji, the
    /// first one counts.
    pub kanji_to_components: Vec<Decomposition>,
}

/// One kanji and its components, in the order in which the file lists them.
#[derive(Debug, Clone, PartialEq, Eq)]
pub struct Decomposition {
    pub kanji: String,
    pub components: Vec<String>,
}

/// What a [`Kradfile`] holds, as plain text.
pub struct KradfileView {
    pub kanji_to_components: Seq<DecompositionView>,
}

/// What a [`Decomposition`] holds, as plain text.
pub struct DecompositionView {
    pub kanji: Seq<char>,
    pub components: Seq<Seq<char>>,
}

impl View for Kradfile {
    type V = KradfileView;

    open spec fn view(&self) -> KradfileView {
        KradfileView { kanji_to_components: views(self.kanji_to_components@) }
    }
}

impl View for Decomposition {
    type V = DecompositionView;

    open spec fn view(&self) -> DecompositionView {
        DecompositionView { kanji: self.kanji@, components: views(self.components@) }
    }
}

/// What stands between the kanji and its components in a line of the file.
pub open spec fn separator() -> Seq<char> {
    " : "@
}

/// Where the first space of a text stands, its length where it has none.
pub open spec fn first_space(text: Seq<char>) -> int
    decreases text.len(),
{
    if text.len() == 0 || text.first() == ' ' {
        0
    } else {
        1 + first_space(text.drop_first())
    }
}

/// The pieces of a text between its spaces, leaving out the empty ones.
pub open spec fn pieces(text: Seq<char>) -> Seq<Seq<char>>
    decreases text.len(),
{
    let at = first_space(text);
    if text.len() == 0 {
        Seq::empty()
    } else if at >= text.len() {
        seq![text]
    } else if at == 0 {
        pieces(text.skip(1))
    } else if 0 < at {
        seq![text.take(at)] + pieces(text.skip(at + 1))
    } else {
        Seq::empty()
    }
}

/// What a line of the file says, if it is a record: the kanji that precedes
/// the first separator and the pieces of what follows it. A line that opens
/// with `#` is a comment and says nothing, nor does a line without separator.
pub open spec fn decomposition_in(line: Seq<char>, found: Option<DecompositionView>) -> bool {
    if (line.len() > 0 && line.first() == '#') || !holds(line, separator()) {
        found is None
    } else {
        exists|at: int| #[trigger]
            stands_first_at(line, separator(), at) && found == Some(
                DecompositionView {
                    kanji: line.take(at),
                    components: pieces(line.skip(at + separator().len())),
                },
            )
    }
}

proof fn lemma_first_space(text: Seq<char>)
    ensures
        0 <= first_space(text) <= text.len(),
        forall|k: int| 0 <= k < first_space(text) ==> text[k] != ' ',
        first_space(text) < text.len() ==> text[first_space(text)] == ' ',
    decreases text.len(),
{
    if text.len() > 0 && text.first() != ' ' {
        lemma_first_space(text.drop_first());
        assert forall|k: int| 0 <= k < first_space(text) implies text[k] != ' ' by {
            if k > 0 {
                assert(text.drop_first()[k - 1] == text[k]);
            }
        }
    }
}

proof fn lemma_first_space_found(text: Seq<char>, at: int)
    requires
        0 <= at <= text.len(),
        forall|k: int| 0 <= k < at ==> text[k] != ' ',
        at < text.len() ==> text[at] == ' ',
    ensures
        first_space(text) == at,
{
    lemma_first_space(text);
}

/// The pieces of the characters from position `from` on.
fn split(line: &str, chars: &Vec<char>, from: usize) -> (r: Vec<String>)
    requires
        chars@ == line@,
        from <= chars.len(),
    ensures
        views(r@) == pieces(line@.skip(from as int)),
{
    let mut out: Vec<String> = Vec::new();
    let n: usize = chars.len();
    let ghost text = line@;
    let mut start: usize = from;
    let mut i: usize = from;
    assert(views(out@) + pieces(text.skip(start as int)) =~= pieces(text.skip(from as int)));
    while i < n
        invariant
            from <= start <= i <= n,
            n == chars.len(),
            chars@ == line@,
            text == line@,
            forall|k: int| start <= k < i ==> text[k] != ' ',
            views(out@) + pieces(text.skip(start as int)) == pieces(text.skip(from as int)),
        decreases n - i,
    {
        if chars[i] == ' ' {
            let ghost rest = text.skip(start as int);
            let ghost prev = views(out@);
            proof {
                lemma_first_space_found(rest, i - start);
                assert(rest.skip(i - start + 1) =~= text.skip(i + 1));
            }
            if i > start {
                let piece = line.substring_char(start, i).to_owned();
                proof {
                    assert(piece@ =~= rest.take(i - start));
                }
                out.push(piece);
                proof {
                    assert(views(out@) =~= prev.push(rest.take(i - start)));
                    assert(views(out@) + pieces(text.skip(i + 1)) =~= prev + pieces(rest));
                }
            } else {
                assert(rest.skip(1) =~= text.skip(i + 1));
            }
            start = i + 1;
        }
        i += 1;
    }
    let ghost rest = text.skip(start as int);
    let ghost prev = views(out@);
    proof {
        lemma_first_space_found(rest, n - start);
    }
    if n > start {
        let piece = line.substring_char(start, n).to_owned();
        proof {
            assert(piece@ =~= rest);
        }
        out.push(piece);
        assert(views(out@) =~= prev + pieces(rest));
    } else {
        assert(views(out@) =~= prev + pieces(rest));
    }
    out
}

impl Decomposition {
    /// Reads a line of the file.
    pub fn parse(line: &str) -> (r: Option<Decomposition>)
        ensures
            decomposition_in(
                line@,
                match r {
                    Some(d) => Some(d@),
                    None => None,
                },
            ),
    {
        let chars = chars_of(line);
        if chars.len() > 0 && chars[0] == '#' {
            return None;
        }
        let mark = chars_of(" : ");
        match find_first(&chars, &mark) {
            None => None,
            Some(at) => {
                let end: usize = chars.len();
                let width: usize = mark.len();
                assert(at + width <= end) by {
                    assert(stands_at(chars@, mark@, at as int));
                }
                let kanji = line.substring_char(0, at).to_owned();
                let components = split(line, &chars, at + width);
                proof {
                    assert(kanji@ =~= line@.take(at as int));
                    assert(stands_first_at(line@, separator(), at as int));
                }
                Some(Decomposition { kanji, components })
            },
        }
    }
}

} // verus!
