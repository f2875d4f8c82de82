//! Fills the skeleton of the wordfile with what the JMdict and its furigana
//! file say of each word.

use crate::input::jmdict::{
    EntryView, Gloss, GlossView, JMdict, KEleView, REle, REleView, Sense, SenseView,
};
use crate::input::jmdict_furigana;
use crate::input::jmdict_furigana::{Ruby, RubyView};
use crate::output::wordfile_skeleton::{first_invalid, lemma_first_invalid_stays, reading_applies};
use crate::ordered::{
    keys, last_place, lemma_first_place, lemma_last_place, first_place, Ordered, Places,
};
use crate::text::{
    byte_len, clone_texts, contains_text, decimal_u32, lemma_text_le_antisymmetric,
    lemma_text_le_connected, lemma_text_le_reflexive, lemma_text_le_transitive, parse_u32, str_eq,
    str_le, text_le, views,
};
use crate::wordfile::{
    unique_ids, Furigana, FuriganaView, HeaderView, Reading, ReadingView, Word, WordView,
    Wordfile, WordfileView,
};
use vstd::prelude::*;

verus! {

/// Why a skeleton could not be filled.
#[derive(Debug, Clone, Copy, PartialEq, Eq)]
pub enum Error {
    /// The segments of the furigana record at this position are longer
    /// together than an offset can say.
    OffsetOverflow { record: usize },
    /// The sequence number of the JMdict entry at this position is no number.
    InvalidId { entry: usize },
    /// The skeleton has no word for this sequence number of the JMdict.
    MissingJmdictId { jmdict_id: u32 },
}

/// The furigana of one written form under one reading.
#[derive(Debug, Clone, PartialEq, Eq)]
pub struct FuriganaEntry {
    /// The written form.
    pub text: String,
    /// Its reading in kana.
    pub reading: String,
    /// The sections of the written form that carry a reading of their own.
    pub spans: Vec<Furigana>,
}

/// One written form of a JMdict entry under one of its readings, with what
/// the entry says of the pair.
#[derive(Debug, Clone, PartialEq, Eq)]
pub struct JMdictWord {
    pub jmdict_id: u32,
    pub written_form: String,
    /// The reading, unless it is the written form itself.
    pub reading: Option<String>,
    pub furigana: Vec<Furigana>,
    pub meanings: Vec<String>,
    pub usually_kana: bool,
}

/// What a [`FuriganaEntry`] holds, as plain text.
pub struct FuriganaEntryView {
    pub text: Seq<char>,
    pub reading: Seq<char>,
    pub spans: Seq<FuriganaView>,
}

/// What a [`JMdictWord`] holds, as plain text.
pub struct JMdictWordView {
    pub jmdict_id: u32,
    pub written_form: Seq<char>,
    pub reading: Option<Seq<char>>,
    pub furigana: Seq<FuriganaView>,
    pub meanings: Seq<Seq<char>>,
    pub usually_kana: bool,
}

impl View for FuriganaEntry {
    type V = FuriganaEntryView;

    open spec fn view(&self) -> FuriganaEntryView {
        FuriganaEntryView { text: self.text@, reading: self.reading@, spans: views(self.spans@) }
    }
}

impl View for JMdictWord {
    type V = JMdictWordView;

    open spec fn view(&self) -> JMdictWordView {
        JMdictWordView {
            jmdict_id: self.jmdict_id,
            written_form: self.written_form@,
            reading: match self.reading {
                Some(r) => Some(r@),
                None => None,
            },
            furigana: views(self.furigana@),
            meanings: views(self.meanings@),
            usually_kana: self.usually_kana,
        }
    }
}

/// The number of bytes that the first `n` segments take together.
pub open spec fn offset(segments: Seq<RubyView>, n: int) -> int
    decreases n,
{
    if n <= 0 {
        0
    } else {
        offset(segments, n - 1) + byte_len(segments[n - 1].ruby)
    }
}

/// The furigana of the first `n` segments: one span for each segment that is
/// annotated, over the bytes that the segment takes in the written form.
pub open spec fn spans(segments: Seq<RubyView>, n: int) -> Seq<FuriganaView>
    decreases n,
{
    if n <= 0 {
        Seq::empty()
    } else {
        match segments[n - 1].rt {
            Some(rt) => spans(segments, n - 1).push(
                FuriganaView {
                    start_idx: offset(segments, n - 1) as usize,
                    end_idx: offset(segments, n) as usize,
                    furigana: rt,
                },
            ),
            None => spans(segments, n - 1),
        }
    }
}

/// The furigana record whose segments come first to more bytes than an
/// offset can say.
pub open spec fn first_overflow(records: Seq<jmdict_furigana::FuriganaView>) -> Option<int>
    decreases records.len(),
{
    if records.len() == 0 {
        None
    } else {
        match first_overflow(records.drop_last()) {
            Some(i) => Some(i),
            None => if offset(records.last().furigana, records.last().furigana.len() as int)
                > usize::MAX {
                Some(records.len() - 1)
            } else {
                None
            },
        }
    }
}

/// The furigana of each record, under its written form and reading.
pub open spec fn furigana_index(records: Seq<jmdict_furigana::FuriganaView>) -> Seq<
    FuriganaEntryView,
> {
    Seq::new(
        records.len(),
        |i: int|
            FuriganaEntryView {
                text: records[i].text,
                reading: records[i].reading,
                spans: spans(records[i].furigana, records[i].furigana.len() as int),
            },
    )
}

/// The furigana of a written form under a reading: that of the last entry for
/// the pair, none where there is no entry.
pub open spec fn spans_for(index: Seq<FuriganaEntryView>, text: Seq<char>, reading: Seq<char>) -> Seq<
    FuriganaView,
>
    decreases index.len(),
{
    if index.len() == 0 {
        Seq::empty()
    } else if index.last().text == text && index.last().reading == reading {
        index.last().spans
    } else {
        spans_for(index.drop_last(), text, reading)
    }
}

proof fn lemma_offset_grows(segments: Seq<RubyView>, n: int, m: int)
    requires
        0 <= n <= m,
    ensures
        0 <= offset(segments, n) <= offset(segments, m),
    decreases m,
{
    if n < m {
        lemma_offset_grows(segments, n, m - 1);
    } else if n > 0 {
        lemma_offset_grows(segments, n - 1, n - 1);
    }
}

/// The furigana of the segments of one record; none where the segments are
/// longer together than an offset can say.
fn process_segments(segments: &Vec<Ruby>) -> (r: Option<Vec<Furigana>>)
    ensures
        match r {
            Some(found) => offset(views(segments@), segments.len() as int) <= usize::MAX && views(found@)
                == spans(views(segments@), segments.len() as int),
            None => offset(views(segments@), segments.len() as int) > usize::MAX,
        },
{
    let mut found: Vec<Furigana> = Vec::new();
    let mut start_idx: usize = 0;
    let mut i: usize = 0;
    assert(views(found@) =~= spans(views(segments@), 0));
    while i < segments.len()
        invariant
            i <= segments.len(),
            start_idx == offset(views(segments@), i as int),
            views(found@) == spans(views(segments@), i as int),
        decreases segments.len() - i,
    {
        let ghost prev = views(found@);
        let length = segments[i].ruby.as_str().as_bytes().len();
        assert(length == byte_len(views(segments@)[i as int].ruby));
        if length > usize::MAX - start_idx {
            proof {
                lemma_offset_grows(views(segments@), i + 1, segments.len() as int);
            }
            return None;
        }
        let end_idx = start_idx + length;
        if let Some(rt) = &segments[i].rt {
            let span = Furigana { start_idx, end_idx, furigana: rt.clone() };
            found.push(span);
            assert(views(found@) =~= prev.push(span@));
        }
        start_idx = end_idx;
        i += 1;
    }
    Some(found)
}

/// Works out the furigana of each record and lists it under the written form
/// and the reading of the record.
pub fn process_furigana(furigana: &Vec<jmdict_furigana::Furigana>) -> (r: Result<
    FuriganaIndex,
    Error,
>)
    ensures
        match r {
            Ok(index) => first_overflow(views(furigana@)) is None && index@ == furigana_index(views(furigana@)),
            Err(Error::OffsetOverflow { record }) => first_overflow(views(furigana@)) == Some(
                record as int,
            ),
            Err(_) => false,
        },
{
    let mut index: Vec<FuriganaEntry> = Vec::new();
    let mut i: usize = 0;
    assert(views(furigana@).take(0) =~= Seq::<jmdict_furigana::FuriganaView>::empty());
    while i < furigana.len()
        invariant
            i <= furigana.len(),
            first_overflow(views(furigana@).take(i as int)) is None,
            index.len() == i,
            forall|k: int| 0 <= k < i ==> (#[trigger] index@[k])@ == furigana_index(views(furigana@))[k],
        decreases furigana.len() - i,
    {
        let record = &furigana[i];
        proof {
            assert(views(furigana@).take(i + 1).drop_last() =~= views(furigana@).take(i as int));
            assert(views(furigana@).take(i + 1).last() == views(furigana@)[i as int]);
        }
        let found = match process_segments(&record.furigana) {
            Some(found) => found,
            None => {
                proof {
                    lemma_first_overflow_stays(views(furigana@), i + 1, furigana.len() as int);
                    assert(views(furigana@).take(furigana.len() as int) =~= views(furigana@));
                }
                return Err(Error::OffsetOverflow { record: i });
            },
        };
        index.push(
            FuriganaEntry { text: record.text.clone(), reading: record.reading.clone(), spans: found },
        );
        i += 1;
    }
    proof {
        assert(views(furigana@).take(i as int) =~= views(furigana@));
        assert(views(index@) =~= furigana_index(views(furigana@)));
    }
    Ok(FuriganaIndex::new(index))
}

/// A record whose segments are too long stays the first such however many
/// records follow.
pub proof fn lemma_first_overflow_stays(
    records: Seq<jmdict_furigana::FuriganaView>,
    n: int,
    m: int,
)
    requires
        0 <= n <= m <= records.len(),
        first_overflow(records.take(n)) is Some,
    ensures
        first_overflow(records.take(m)) == first_overflow(records.take(n)),
    decreases m - n,
{
    if n < m {
        assert(records.take(m).drop_last() =~= records.take(m - 1));
        lemma_first_overflow_stays(records, n, m - 1);
    }
}

/// A copy of a list of furigana.
fn clone_furigana(v: &Vec<Furigana>) -> (r: Vec<Furigana>)
    ensures
        views(r@) == views(v@),
{
    let mut out: Vec<Furigana> = Vec::new();
    let mut i: usize = 0;
    while i < v.len()
        invariant
            i <= v.len(),
            out.len() == i,
            forall|k: int| 0 <= k < i ==> out@[k]@ == v@[k]@,
        decreases v.len() - i,
    {
        out.push(
            Furigana {
                start_idx: v[i].start_idx,
                end_idx: v[i].end_idx,
                furigana: v[i].furigana.clone(),
            },
        );
        i += 1;
    }
    assert(views(out@) =~= views(v@));
    out
}

/// A written form with a reading: what furigana is looked up by.
pub struct Pair {
    pub text: String,
    pub reading: String,
}

/// Pairs are ranked by the written form, then by the reading.
impl Ordered for Pair {
    type K = (Seq<char>, Seq<char>);

    open spec fn key(&self) -> (Seq<char>, Seq<char>) {
        (self.text@, self.reading@)
    }

    open spec fn le(a: (Seq<char>, Seq<char>), b: (Seq<char>, Seq<char>)) -> bool {
        if a.0 == b.0 {
            text_le(a.1, b.1)
        } else {
            text_le(a.0, b.0)
        }
    }

    proof fn lemma_le_reflexive(a: (Seq<char>, Seq<char>)) {
        lemma_text_le_reflexive(a.1);
    }

    proof fn lemma_le_antisymmetric(a: (Seq<char>, Seq<char>), b: (Seq<char>, Seq<char>)) {
        if a.0 == b.0 {
            lemma_text_le_antisymmetric(a.1, b.1);
        } else {
            lemma_text_le_antisymmetric(a.0, b.0);
        }
    }

    proof fn lemma_le_transitive(
        a: (Seq<char>, Seq<char>),
        b: (Seq<char>, Seq<char>),
        c: (Seq<char>, Seq<char>),
    ) {
        if a.0 == b.0 && b.0 == c.0 {
            lemma_text_le_transitive(a.1, b.1, c.1);
        } else if a.0 != b.0 && b.0 != c.0 {
            lemma_text_le_transitive(a.0, b.0, c.0);
            if a.0 == c.0 {
                lemma_text_le_antisymmetric(a.0, b.0);
            }
        }
    }

    proof fn lemma_le_connected(a: (Seq<char>, Seq<char>), b: (Seq<char>, Seq<char>)) {
        lemma_text_le_connected(a.0, b.0);
        lemma_text_le_connected(a.1, b.1);
    }

    fn precedes(&self, other: &Self) -> (r: bool) {
        if str_eq(self.text.as_str(), other.text.as_str()) {
            str_le(self.reading.as_str(), other.reading.as_str())
        } else {
            str_le(self.text.as_str(), other.text.as_str())
        }
    }

    fn duplicate(&self) -> (r: Self) {
        Pair { text: self.text.clone(), reading: self.reading.clone() }
    }
}

/// The written form and the reading of each entry.
pub open spec fn pairs(index: Seq<FuriganaEntryView>) -> Seq<(Seq<char>, Seq<char>)> {
    Seq::new(index.len(), |i: int| (index[i].text, index[i].reading))
}

/// The furigana of a pair is that of the last entry which the list of pairs
/// has for it.
pub proof fn lemma_spans_for(index: Seq<FuriganaEntryView>, text: Seq<char>, reading: Seq<char>)
    ensures
        spans_for(index, text, reading) == match last_place(pairs(index), (text, reading)) {
            Some(p) => index[p].spans,
            None => Seq::empty(),
        },
    decreases index.len(),
{
    if index.len() > 0 {
        assert(pairs(index).drop_last() =~= pairs(index.drop_last()));
        assert(pairs(index).last() == (index.last().text, index.last().reading));
        lemma_spans_for(index.drop_last(), text, reading);
        lemma_last_place(pairs(index.drop_last()), (text, reading));
    }
}

/// The furigana of written forms under their readings, entry by entry, and
/// for each pair the places of its entries. Its view is the entries.
pub struct FuriganaIndex {
    entries: Vec<FuriganaEntry>,
    places: Places<Pair>,
}

impl View for FuriganaIndex {
    type V = Seq<FuriganaEntryView>;

    closed spec fn view(&self) -> Seq<FuriganaEntryView> {
        views(self.entries@)
    }
}

impl FuriganaIndex {
    /// The places are those of the pairs of the entries.
    #[verifier::type_invariant]
    spec fn wf(&self) -> bool {
        self.places@ == pairs(views(self.entries@))
    }

    /// An index of the entries.
    pub fn new(entries: Vec<FuriganaEntry>) -> (r: Self)
        ensures
            r@ == views(entries@),
    {
        let mut found: Vec<Pair> = Vec::new();
        let mut i: usize = 0;
        while i < entries.len()
            invariant
                i <= entries.len(),
                found.len() == i,
                forall|k: int|
                    0 <= k < i ==> (#[trigger] found@[k]).key() == (
                        entries@[k].text@,
                        entries@[k].reading@,
                    ),
            decreases entries.len() - i,
        {
            found.push(Pair { text: entries[i].text.clone(), reading: entries[i].reading.clone() });
            i += 1;
        }
        let places = Places::of(&found);
        assert(keys(found@) =~= pairs(views(entries@)));
        FuriganaIndex { entries, places }
    }

    /// The entries of the index.
    pub fn entries(&self) -> (r: &Vec<FuriganaEntry>)
        ensures
            views(r@) == self@,
    {
        &self.entries
    }

    /// The furigana of a written form under a reading.
    pub fn spans(&self, text: &str, reading: &str) -> (r: Vec<Furigana>)
        ensures
            views(r@) == spans_for(self@, text@, reading@),
    {
        proof {
            use_type_invariant(self);
            lemma_spans_for(self@, text@, reading@);
        }
        let pair = Pair { text: text.to_owned(), reading: reading.to_owned() };
        match self.places.last(&pair) {
            Some(p) => {
                proof {
                    lemma_last_place(pairs(self@), (text@, reading@));
                }
                clone_furigana(&self.entries[p].spans)
            },
            None => {
                let none: Vec<Furigana> = Vec::new();
                assert(views(none@) =~= Seq::<FuriganaView>::empty());
                none
            },
        }
    }
}

/// Whether a sense applies to a written form under a reading: it is
/// restricted to no written forms, or to this one among others, and likewise
/// for the reading.
pub open spec fn sense_applies(sense: SenseView, keb: Seq<char>, reb: Seq<char>) -> bool {
    &&& sense.stagk.len() == 0 || sense.stagk.contains(keb)
    &&& sense.stagr.len() == 0 || sense.stagr.contains(reb)
}

/// Whether a sense says that the word is usually written in kana.
pub open spec fn says_usually_kana(sense: SenseView) -> bool {
    sense.misc.contains("word usually written using kana alone"@)
}

/// Whether a kanji form is marked as rarely used.
pub open spec fn is_rare(kele: KEleView) -> bool {
    kele.ke_inf.contains("rarely-used kanji form"@)
}

/// The values of the glosses that carry no language tag, in order.
pub open spec fn untagged(glosses: Seq<GlossView>) -> Seq<Seq<char>>
    decreases glosses.len(),
{
    if glosses.len() == 0 {
        Seq::empty()
    } else if glosses.last().lang is None {
        untagged(glosses.drop_last()).push(glosses.last().value)
    } else {
        untagged(glosses.drop_last())
    }
}

/// The untagged glosses of the senses that apply to a written form under a
/// reading, sense after sense.
pub open spec fn meanings_for(senses: Seq<SenseView>, keb: Seq<char>, reb: Seq<char>) -> Seq<Seq<char>>
    decreases senses.len(),
{
    if senses.len() == 0 {
        Seq::empty()
    } else if sense_applies(senses.last(), keb, reb) {
        meanings_for(senses.drop_last(), keb, reb) + untagged(senses.last().gloss)
    } else {
        meanings_for(senses.drop_last(), keb, reb)
    }
}

/// Whether one of the senses that apply to a written form under a reading
/// says that the word is usually written in kana.
pub open spec fn flagged_kana(senses: Seq<SenseView>, keb: Seq<char>, reb: Seq<char>) -> bool {
    exists|s: int|
        0 <= s < senses.len() && sense_applies(#[trigger] senses[s], keb, reb) && says_usually_kana(
            senses[s],
        )
}

/// What an entry says of one written form under one reading. Where the entry
/// has no kanji form, the reading is the written form.
pub open spec fn word_for(
    jmdict_id: u32,
    index: Seq<FuriganaEntryView>,
    senses: Seq<SenseView>,
    keb: Option<Seq<char>>,
    reb: Seq<char>,
    rare_written_form: bool,
) -> JMdictWordView {
    let form = match keb {
        Some(k) => k,
        None => reb,
    };
    JMdictWordView {
        jmdict_id,
        written_form: form,
        reading: if form == reb {
            None
        } else {
            Some(reb)
        },
        furigana: spans_for(index, form, reb),
        meanings: meanings_for(senses, form, reb),
        usually_kana: rare_written_form || flagged_kana(senses, form, reb),
    }
}

/// The untagged glosses of a sense.
fn untagged_glosses(glosses: &Vec<Gloss>, out: &mut Vec<String>)
    ensures
        views(final(out)@) == views(old(out)@) + untagged(views(glosses@)),
{
    let ghost start = views(out@);
    let mut i: usize = 0;
    assert(views(out@) =~= start + untagged(views(glosses@).take(0)));
    while i < glosses.len()
        invariant
            i <= glosses.len(),
            views(out@) == start + untagged(views(glosses@).take(i as int)),
        decreases glosses.len() - i,
    {
        let ghost prev = views(out@);
        assert(views(glosses@).take(i + 1).drop_last() =~= views(glosses@).take(i as int));
        if glosses[i].lang.is_none() {
            out.push(glosses[i].value.clone());
            assert(views(out@) =~= prev.push(views(glosses@)[i as int].value));
            assert(views(out@) =~= start + untagged(views(glosses@).take(i + 1)));
        }
        i += 1;
    }
    assert(views(glosses@).take(i as int) =~= views(glosses@));
}

/// Turns one written form of an entry under one of its readings into a row:
/// the furigana of the pair, the glosses of the senses that apply to it, and
/// whether it is usually written in kana.
pub fn process_jmdict_word(
    jmdict_id: u32,
    furigana: &FuriganaIndex,
    sense: &Vec<Sense>,
    keb: Option<String>,
    rele: &REle,
    rare_written_form: bool,
) -> (r: JMdictWord)
    ensures
        r@ == word_for(
            jmdict_id,
            furigana@,
            views(sense@),
            match keb {
                Some(k) => Some(k@),
                None => None,
            },
            rele.reb@,
            rare_written_form,
        ),
{
    let reb = rele.reb.clone();
    let keb = match keb {
        Some(k) => k,
        None => reb.clone(),
    };
    let spans = furigana.spans(keb.as_str(), reb.as_str());
    let mut usually_kana = rare_written_form;
    let mut meanings: Vec<String> = Vec::new();
    let mut i: usize = 0;
    assert(views(meanings@) =~= meanings_for(views(sense@).take(0), keb@, reb@));
    while i < sense.len()
        invariant
            i <= sense.len(),
            views(meanings@) == meanings_for(views(sense@).take(i as int), keb@, reb@),
            usually_kana == (rare_written_form || flagged_kana(views(sense@).take(i as int), keb@, reb@)),
        decreases sense.len() - i,
    {
        let s = &sense[i];
        let ghost before = views(sense@).take(i as int);
        let ghost after = views(sense@).take(i + 1);
        proof {
            assert(after.drop_last() =~= before);
            assert(after.last() == views(sense@)[i as int]);
        }
        let stagk = s.stagk.len() == 0 || contains_text(&s.stagk, keb.as_str());
        let stagr = s.stagr.len() == 0 || contains_text(&s.stagr, reb.as_str());
        let mut flagged = false;
        if stagk && stagr {
            if contains_text(&s.misc, "word usually written using kana alone") {
                usually_kana = true;
                flagged = true;
            }
            untagged_glosses(&s.gloss, &mut meanings);
        }
        proof {
            assert(flagged == (sense_applies(s@, keb@, reb@) && says_usually_kana(s@)));
            if flagged_kana(after, keb@, reb@) {
                let q = choose|q: int|
                    0 <= q < after.len() && sense_applies(#[trigger] after[q], keb@, reb@)
                        && says_usually_kana(after[q]);
                if q < i {
                    assert(sense_applies(before[q], keb@, reb@) && says_usually_kana(before[q]));
                }
            }
            if flagged_kana(before, keb@, reb@) {
                let q = choose|q: int|
                    0 <= q < before.len() && sense_applies(#[trigger] before[q], keb@, reb@)
                        && says_usually_kana(before[q]);
                assert(sense_applies(after[q], keb@, reb@) && says_usually_kana(after[q]));
            }
            if flagged {
                assert(sense_applies(after[i as int], keb@, reb@) && says_usually_kana(
                    after[i as int],
                ));
            }
        }
        i += 1;
    }
    assert(views(sense@).take(i as int) =~= views(sense@));
    let same = str_eq(keb.as_str(), reb.as_str());
    JMdictWord {
        jmdict_id,
        written_form: keb,
        reading: if same {
            None
        } else {
            Some(reb)
        },
        furigana: spans,
        meanings,
        usually_kana,
    }
}

/// The rows of one kanji form: one for each reading that applies to it.
pub open spec fn words_per_reading(
    jmdict_id: u32,
    index: Seq<FuriganaEntryView>,
    senses: Seq<SenseView>,
    kele: KEleView,
    readings: Seq<REleView>,
) -> Seq<JMdictWordView>
    decreases readings.len(),
{
    if readings.len() == 0 {
        Seq::empty()
    } else if reading_applies(readings.last(), kele.keb) {
        words_per_reading(jmdict_id, index, senses, kele, readings.drop_last()).push(
            word_for(jmdict_id, index, senses, Some(kele.keb), readings.last().reb, is_rare(kele)),
        )
    } else {
        words_per_reading(jmdict_id, index, senses, kele, readings.drop_last())
    }
}

/// The rows of a list of kanji forms, form after form.
pub open spec fn words_of_kebs(
    jmdict_id: u32,
    index: Seq<FuriganaEntryView>,
    senses: Seq<SenseView>,
    kebs: Seq<KEleView>,
    readings: Seq<REleView>,
) -> Seq<JMdictWordView>
    decreases kebs.len(),
{
    if kebs.len() == 0 {
        Seq::empty()
    } else {
        words_of_kebs(jmdict_id, index, senses, kebs.drop_last(), readings) + words_per_reading(
            jmdict_id,
            index,
            senses,
            kebs.last(),
            readings,
        )
    }
}

/// The rows of one entry: one for each reading where the entry has no kanji
/// form, else one for each kanji form and each reading that applies to it.
pub open spec fn entry_words(index: Seq<FuriganaEntryView>, entry: EntryView) -> Seq<JMdictWordView> {
    let id = decimal_u32(entry.ent_seq).unwrap();
    if entry.k_ele.len() == 0 {
        Seq::new(
            entry.r_ele.len(),
            |r: int| word_for(id, index, entry.sense, None, entry.r_ele[r].reb, false),
        )
    } else {
        words_of_kebs(id, index, entry.sense, entry.k_ele, entry.r_ele)
    }
}

/// The rows of a dictionary: those of its entries, entry after entry.
pub open spec fn words(index: Seq<FuriganaEntryView>, entries: Seq<EntryView>) -> Seq<JMdictWordView>
    decreases entries.len(),
{
    if entries.len() == 0 {
        Seq::empty()
    } else {
        words(index, entries.drop_last()) + entry_words(index, entries.last())
    }
}

/// Turns the entries of the JMdict into rows, one for each written form and
/// each reading that applies to it.
pub fn process_jmdict(jmdict: &JMdict, furigana: &FuriganaIndex) -> (r: Result<
    Vec<JMdictWord>,
    Error,
>)
    ensures
        match r {
            Ok(found) => first_invalid(jmdict@.entry) is None && views(found@) == words(
                furigana@,
                jmdict@.entry,
            ),
            Err(Error::InvalidId { entry }) => first_invalid(jmdict@.entry) == Some(entry as int),
            Err(_) => false,
        },
{
    let entries = &jmdict.entry;
    let ghost index = furigana@;
    let mut out: Vec<JMdictWord> = Vec::new();
    let mut i: usize = 0;
    assert(views(out@) =~= words(index, views(entries@).take(0)));
    while i < entries.len()
        invariant
            i <= entries.len(),
            views(entries@) == jmdict@.entry,
            index == furigana@,
            first_invalid(views(entries@).take(i as int)) is None,
            views(out@) == words(index, views(entries@).take(i as int)),
        decreases entries.len() - i,
    {
        let entry = &entries[i];
        let ghost before = views(out@);
        proof {
            assert(views(entries@).take(i + 1).drop_last() =~= views(entries@).take(i as int));
            assert(views(entries@).take(i + 1).last() == views(entries@)[i as int]);
        }
        let id = match parse_u32(entry.ent_seq.as_str()) {
            Some(id) => id,
            None => {
                proof {
                    assert(first_invalid(views(entries@).take(i + 1)) == Some(i as int));
                    lemma_first_invalid_stays(views(entries@), i + 1, entries.len() as int);
                    assert(views(entries@).take(entries.len() as int) =~= views(entries@));
                }
                return Err(Error::InvalidId { entry: i });
            },
        };
        if entry.k_ele.len() == 0 {
            let mut r: usize = 0;
            while r < entry.r_ele.len()
                invariant
                    r <= entry.r_ele.len(),
                    entry@.k_ele.len() == 0,
                    index == furigana@,
                    views(out@) == before + Seq::new(
                        r as nat,
                        |k: int| word_for(id, index, entry@.sense, None, entry@.r_ele[k].reb, false),
                    ),
                decreases entry.r_ele.len() - r,
            {
                let ghost prev = views(out@);
                let row = process_jmdict_word(
                    id,
                    furigana,
                    &entry.sense,
                    None,
                    &entry.r_ele[r],
                    false,
                );
                out.push(row);
                assert(views(out@) =~= prev.push(row@));
                assert(views(out@) =~= before + Seq::new(
                    (r + 1) as nat,
                    |k: int| word_for(id, index, entry@.sense, None, entry@.r_ele[k].reb, false),
                ));
                r += 1;
            }
            assert(views(out@) =~= before + entry_words(index, entry@));
        } else {
            let mut k: usize = 0;
            assert(views(out@) =~= before + words_of_kebs(
                id,
                index,
                entry@.sense,
                entry@.k_ele.take(0),
                entry@.r_ele,
            ));
            while k < entry.k_ele.len()
                invariant
                    k <= entry.k_ele.len(),
                    index == furigana@,
                    views(out@) == before + words_of_kebs(
                        id,
                        index,
                        entry@.sense,
                        entry@.k_ele.take(k as int),
                        entry@.r_ele,
                    ),
                decreases entry.k_ele.len() - k,
            {
                let kele = &entry.k_ele[k];
                let rare_written_form = contains_text(&kele.ke_inf, "rarely-used kanji form");
                let ghost done = words_of_kebs(
                    id,
                    index,
                    entry@.sense,
                    entry@.k_ele.take(k as int),
                    entry@.r_ele,
                );
                let mut r: usize = 0;
                proof {
                    assert(entry@.k_ele.take(k + 1).drop_last() =~= entry@.k_ele.take(k as int));
                    assert(entry@.k_ele.take(k + 1).last() == kele@);
                    assert(views(out@) =~= before + done + words_per_reading(
                        id,
                        index,
                        entry@.sense,
                        kele@,
                        entry@.r_ele.take(0),
                    ));
                }
                while r < entry.r_ele.len()
                    invariant
                        r <= entry.r_ele.len(),
                        index == furigana@,
                        rare_written_form == is_rare(kele@),
                        views(out@) == before + done + words_per_reading(
                            id,
                            index,
                            entry@.sense,
                            kele@,
                            entry@.r_ele.take(r as int),
                        ),
                    decreases entry.r_ele.len() - r,
                {
                    let rele = &entry.r_ele[r];
                    let ghost prev = views(out@);
                    proof {
                        assert(entry@.r_ele.take(r + 1).drop_last() =~= entry@.r_ele.take(r as int));
                        assert(entry@.r_ele.take(r + 1).last() == rele@);
                    }
                    if rele.re_restr.len() == 0 || contains_text(&rele.re_restr, kele.keb.as_str()) {
                        let row = process_jmdict_word(
                            id,
                            furigana,
                            &entry.sense,
                            Some(kele.keb.clone()),
                            rele,
                            rare_written_form,
                        );
                        out.push(row);
                        proof {
                            assert(views(out@) =~= prev.push(row@));
                            assert(views(out@) =~= before + done + words_per_reading(
                                id,
                                index,
                                entry@.sense,
                                kele@,
                                entry@.r_ele.take(r + 1),
                            ));
                        }
                    }
                    r += 1;
                }
                proof {
                    assert(entry@.r_ele.take(r as int) =~= entry@.r_ele);
                    assert(views(out@) =~= before + words_of_kebs(
                        id,
                        index,
                        entry@.sense,
                        entry@.k_ele.take(k + 1),
                        entry@.r_ele,
                    ));
                }
                k += 1;
            }
            assert(entry@.k_ele.take(k as int) =~= entry@.k_ele);
            assert(views(out@) =~= before + entry_words(index, entry@));
        }
        i += 1;
    }
    assert(views(entries@).take(i as int) =~= views(entries@));
    Ok(out)
}

/// Whether a row is about a word: the word stands for the entry of the row
/// and has its written form.
pub open spec fn hits(word: WordView, row: JMdictWordView) -> bool {
    word.jmdict_id == Some(row.jmdict_id) && word.written_forms.contains(row.written_form)
}

/// The last of the rows that is about a word.
pub open spec fn last_hit(word: WordView, rows: Seq<JMdictWordView>) -> Option<int>
    decreases rows.len(),
{
    if rows.len() == 0 {
        None
    } else if hits(word, rows.last()) {
        Some(rows.len() - 1)
    } else {
        last_hit(word, rows.drop_last())
    }
}

/// The reading that a row gives: its reading with its furigana, none where
/// the written form of the row is its reading.
pub open spec fn reading_of(row: JMdictWordView) -> Seq<ReadingView> {
    match row.reading {
        Some(reading) => seq![
            ReadingView { reading, furigana: row.furigana, usually_kana: row.usually_kana },
        ],
        None => Seq::empty(),
    }
}

/// The readings that the rows give a word: that of each row that is about
/// the word, in the order of the rows.
pub open spec fn added_readings(word: WordView, rows: Seq<JMdictWordView>) -> Seq<ReadingView>
    decreases rows.len(),
{
    if rows.len() == 0 {
        Seq::empty()
    } else if hits(word, rows.last()) {
        added_readings(word, rows.drop_last()) + reading_of(rows.last())
    } else {
        added_readings(word, rows.drop_last())
    }
}

/// What the rows make of a word. A word that some row is about takes the
/// meanings of the last such row, and its readings are those that the rows
/// give it, whatever readings it had. A word that no row is about stays as
/// it is.
pub open spec fn after_rows(word: WordView, rows: Seq<JMdictWordView>) -> WordView {
    match last_hit(word, rows) {
        Some(r) => WordView {
            id: word.id,
            jmdict_id: word.jmdict_id,
            written_forms: word.written_forms,
            meanings: rows[r].meanings,
            readings: added_readings(word, rows),
        },
        None => word,
    }
}

/// A word once one more row has been filled in. A row that is about the word
/// replaces its meanings and adds its reading to those of the word, or to
/// none where the row is the first that is about the word; any other row
/// leaves the word as it is.
pub open spec fn after_row(word: WordView, row: JMdictWordView, first: bool) -> WordView {
    if hits(word, row) {
        WordView {
            id: word.id,
            jmdict_id: word.jmdict_id,
            written_forms: word.written_forms,
            meanings: row.meanings,
            readings: if first {
                reading_of(row)
            } else {
                word.readings + reading_of(row)
            },
        }
    } else {
        word
    }
}

/// Whether a word stands for the JMdict entry with this sequence number.
pub open spec fn has_entry(words: Seq<WordView>, jmdict_id: u32) -> bool {
    exists|j: int| 0 <= j < words.len() && (#[trigger] words[j]).jmdict_id == Some(jmdict_id)
}

/// The first row for whose entry no word stands.
pub open spec fn first_missing(words: Seq<WordView>, rows: Seq<JMdictWordView>) -> Option<int>
    decreases rows.len(),
{
    if rows.len() == 0 {
        None
    } else {
        match first_missing(words, rows.drop_last()) {
            Some(i) => Some(i),
            None => if has_entry(words, rows.last().jmdict_id) {
                None
            } else {
                Some(rows.len() - 1)
            },
        }
    }
}

/// What keeps a skeleton from being filled: a furigana record that is too
/// long, else a sequence number that is no number, else a row for whose entry
/// the skeleton has no word. The first of its kind is named.
pub open spec fn fault(
    skeleton: WordfileView,
    entries: Seq<EntryView>,
    furigana: Seq<jmdict_furigana::FuriganaView>,
) -> Option<Error> {
    match first_overflow(furigana) {
        Some(record) => Some(Error::OffsetOverflow { record: record as usize }),
        None => match first_invalid(entries) {
            Some(entry) => Some(Error::InvalidId { entry: entry as usize }),
            None => {
                let rows = words(furigana_index(furigana), entries);
                match first_missing(skeleton.words, rows) {
                    Some(i) => Some(Error::MissingJmdictId { jmdict_id: rows[i].jmdict_id }),
                    None => None,
                }
            },
        },
    }
}

/// The wordfile that filling makes of a skeleton.
pub open spec fn filled(
    skeleton: WordfileView,
    entries: Seq<EntryView>,
    jmdict_version: Seq<char>,
    furigana: Seq<jmdict_furigana::FuriganaView>,
) -> WordfileView {
    let rows = words(furigana_index(furigana), entries);
    WordfileView {
        header: HeaderView { version: skeleton.header.version, jmdict_version },
        words: Seq::new(skeleton.words.len(), |j: int| after_rows(skeleton.words[j], rows)),
    }
}

/// A row for whose entry no word stands stays the first such however many
/// rows follow.
pub proof fn lemma_first_missing_stays(
    words: Seq<WordView>,
    rows: Seq<JMdictWordView>,
    n: int,
    m: int,
)
    requires
        0 <= n <= m <= rows.len(),
        first_missing(words, rows.take(n)) is Some,
    ensures
        first_missing(words, rows.take(m)) == first_missing(words, rows.take(n)),
    decreases m - n,
{
    if n < m {
        assert(rows.take(m).drop_last() =~= rows.take(m - 1));
        lemma_first_missing_stays(words, rows, n, m - 1);
    }
}

/// The entries that the words stand for, word by word.
pub open spec fn entry_ids(words: Seq<WordView>) -> Seq<Option<u32>> {
    Seq::new(words.len(), |j: int| words[j].jmdict_id)
}

/// The places of the words by the entries they stand for.
fn places_by_entry(words: &Vec<Word>) -> (r: Places<Option<u32>>)
    ensures
        r@ == entry_ids(views(words@)),
{
    let mut ids: Vec<Option<u32>> = Vec::new();
    let mut j: usize = 0;
    while j < words.len()
        invariant
            j <= words.len(),
            ids.len() == j,
            forall|k: int| 0 <= k < j ==> #[trigger] ids@[k] == words@[k].jmdict_id,
        decreases words.len() - j,
    {
        ids.push(words[j].jmdict_id);
        j += 1;
    }
    let places = Places::of(&ids);
    assert(keys(ids@) =~= entry_ids(views(words@)));
    places
}

/// Fills one row into one word, as the first row that is about the word or as
/// a later one, and says whether the row is about the word.
fn apply_row(word: &mut Word, row: &JMdictWord, first: bool) -> (hit: bool)
    ensures
        hit == hits(old(word)@, row@),
        final(word)@ == after_row(old(word)@, row@, first),
{
    let about = match word.jmdict_id {
        Some(id) => id == row.jmdict_id,
        None => false,
    };
    if about && contains_text(&word.written_forms, row.written_form.as_str()) {
        word.meanings = clone_texts(&row.meanings);
        if first {
            word.readings = Vec::new();
        }
        let ghost readings = views(word.readings@);
        if let Some(reading) = &row.reading {
            let added = Reading {
                furigana: clone_furigana(&row.furigana),
                reading: reading.clone(),
                usually_kana: row.usually_kana,
            };
            word.readings.push(added);
            assert(views(word.readings@) =~= readings.push(added@));
        }
        proof {
            if first {
                assert(readings =~= Seq::<ReadingView>::empty());
            }
            assert(views(word.readings@) =~= if first {
                reading_of(row@)
            } else {
                old(word)@.readings + reading_of(row@)
            });
        }
        true
    } else {
        false
    }
}

/// Rows change neither the id of a word nor the entry it stands for nor its
/// written forms.
pub proof fn lemma_after_rows_keeps_identity(word: WordView, rows: Seq<JMdictWordView>)
    ensures
        after_rows(word, rows).id == word.id,
        after_rows(word, rows).jmdict_id == word.jmdict_id,
        after_rows(word, rows).written_forms == word.written_forms,
{
}

/// The last row that is about a word is a row that is about it; where there
/// is none, no row is about the word and the rows give it no reading.
pub proof fn lemma_last_hit(word: WordView, rows: Seq<JMdictWordView>)
    ensures
        match last_hit(word, rows) {
            Some(r) => 0 <= r < rows.len() && hits(word, rows[r]),
            None => added_readings(word, rows) == Seq::<ReadingView>::empty() && forall|r: int|
                0 <= r < rows.len() ==> !hits(word, #[trigger] rows[r]),
        },
    decreases rows.len(),
{
    if rows.len() > 0 {
        lemma_last_hit(word, rows.drop_last());
        if !hits(word, rows.last()) && last_hit(word, rows) is None {
            assert forall|r: int| 0 <= r < rows.len() implies !hits(word, #[trigger] rows[r]) by {
                if r < rows.len() - 1 {
                    assert(rows.drop_last()[r] == rows[r]);
                }
            }
        }
    }
}

/// What the rows up to one more make of a word is what that row makes of
/// what the rows before it made.
pub proof fn lemma_after_rows_step(word: WordView, rows: Seq<JMdictWordView>, i: int)
    requires
        0 <= i < rows.len(),
    ensures
        after_rows(word, rows.take(i + 1)) == after_row(
            after_rows(word, rows.take(i)),
            rows[i],
            last_hit(word, rows.take(i)) is None,
        ),
        last_hit(word, rows.take(i + 1)) is Some <==> last_hit(word, rows.take(i)) is Some || hits(
            word,
            rows[i],
        ),
{
    let a = rows.take(i);
    let b = rows.take(i + 1);
    assert(b.drop_last() =~= a);
    assert(b.last() == rows[i]);
    lemma_last_hit(word, a);
    let now = after_rows(word, a);
    assert(hits(now, rows[i]) == hits(word, rows[i]));
    if hits(word, rows[i]) {
        assert(b[i] == rows[i]);
        if last_hit(word, a) is None {
            assert(added_readings(word, b) =~= reading_of(rows[i]));
        }
    } else if last_hit(word, a) is Some {
        let r = last_hit(word, a).unwrap();
        assert(b[r] == a[r]);
    }
}

/// Filling changes neither the number of words nor the id of any word, the
/// entry it stands for or its written forms; ids that were free of repeats
/// stay so.
pub proof fn lemma_fill_keeps_identity(
    skeleton: WordfileView,
    entries: Seq<EntryView>,
    jmdict_version: Seq<char>,
    furigana: Seq<jmdict_furigana::FuriganaView>,
)
    ensures
        filled(skeleton, entries, jmdict_version, furigana).words.len() == skeleton.words.len(),
        forall|j: int|
            #![trigger filled(skeleton, entries, jmdict_version, furigana).words[j]]
            0 <= j < skeleton.words.len() ==> {
                let after = filled(skeleton, entries, jmdict_version, furigana).words[j];
                &&& after.id == skeleton.words[j].id
                &&& after.jmdict_id == skeleton.words[j].jmdict_id
                &&& after.written_forms == skeleton.words[j].written_forms
            },
        unique_ids(skeleton.words) ==> unique_ids(
            filled(skeleton, entries, jmdict_version, furigana).words,
        ),
{
    let after = filled(skeleton, entries, jmdict_version, furigana).words;
    if unique_ids(skeleton.words) {
        assert forall|i: int, j: int| 0 <= i < j < after.len() implies (#[trigger] after[i]).id != (
        #[trigger] after[j]).id by {
            assert(skeleton.words[i].id != skeleton.words[j].id);
        }
    }
}

proof fn lemma_rows_by_identity(a: WordView, b: WordView, rows: Seq<JMdictWordView>)
    requires
        a.jmdict_id == b.jmdict_id,
        a.written_forms == b.written_forms,
    ensures
        last_hit(a, rows) == last_hit(b, rows),
        added_readings(a, rows) == added_readings(b, rows),
    decreases rows.len(),
{
    if rows.len() > 0 {
        lemma_rows_by_identity(a, b, rows.drop_last());
    }
}

proof fn lemma_first_missing_by_identity(
    a: Seq<WordView>,
    b: Seq<WordView>,
    rows: Seq<JMdictWordView>,
)
    requires
        a.len() == b.len(),
        forall|j: int| 0 <= j < a.len() ==> (#[trigger] a[j]).jmdict_id == b[j].jmdict_id,
    ensures
        first_missing(a, rows) == first_missing(b, rows),
    decreases rows.len(),
{
    if rows.len() > 0 {
        lemma_first_missing_by_identity(a, b, rows.drop_last());
        let id = rows.last().jmdict_id;
        if has_entry(a, id) {
            let j = choose|j: int| 0 <= j < a.len() && (#[trigger] a[j]).jmdict_id == Some(id);
            assert(b[j].jmdict_id == Some(id));
        }
        if has_entry(b, id) {
            let j = choose|j: int| 0 <= j < b.len() && (#[trigger] b[j]).jmdict_id == Some(id);
            assert(a[j].jmdict_id == Some(id));
        }
    }
}

/// Filling a wordfile a second time from the same JMdict and furigana, under
/// the same version, meets the same fault if any and otherwise leaves the
/// wordfile as the first filling made it.
pub proof fn lemma_fill_idempotent(
    skeleton: WordfileView,
    entries: Seq<EntryView>,
    jmdict_version: Seq<char>,
    furigana: Seq<jmdict_furigana::FuriganaView>,
)
    ensures
        fault(filled(skeleton, entries, jmdict_version, furigana), entries, furigana) == fault(
            skeleton,
            entries,
            furigana,
        ),
        filled(
            filled(skeleton, entries, jmdict_version, furigana),
            entries,
            jmdict_version,
            furigana,
        ) == filled(skeleton, entries, jmdict_version, furigana),
{
    let rows = words(furigana_index(furigana), entries);
    let once = filled(skeleton, entries, jmdict_version, furigana);
    let twice = filled(once, entries, jmdict_version, furigana);
    assert forall|j: int| 0 <= j < once.words.len() implies (#[trigger] once.words[j]).jmdict_id
        == skeleton.words[j].jmdict_id by {}
    lemma_first_missing_by_identity(once.words, skeleton.words, rows);
    assert forall|j: int| 0 <= j < once.words.len() implies twice.words[j] == once.words[j] by {
        lemma_rows_by_identity(once.words[j], skeleton.words[j], rows);
    }
    assert(twice.words =~= once.words);
}

/// Each span of the furigana ends where or before the next begins, none
/// reaches beyond the segments, and where every segment is annotated there
/// is a span for each and the last ends where the segments end.
pub proof fn lemma_spans_in_order(segments: Seq<RubyView>, n: int)
    requires
        0 <= n <= segments.len(),
        offset(segments, n) <= usize::MAX,
    ensures
        forall|i: int|
            0 <= i < spans(segments, n).len() ==> (#[trigger] spans(segments, n)[i]).start_idx
                <= spans(segments, n)[i].end_idx <= offset(segments, n),
        forall|i: int, j: int|
            0 <= i < j < spans(segments, n).len() ==> (#[trigger] spans(segments, n)[i]).end_idx <= (
            #[trigger] spans(segments, n)[j]).start_idx,
        (forall|k: int| 0 <= k < n ==> (#[trigger] segments[k]).rt is Some) ==> spans(
            segments,
            n,
        ).len() == n,
        n > 0 && (forall|k: int| 0 <= k < n ==> (#[trigger] segments[k]).rt is Some) ==> spans(
            segments,
            n,
        ).last().end_idx == offset(segments, n),
    decreases n,
{
    if n > 0 {
        lemma_offset_grows(segments, n - 1, n);
        lemma_spans_in_order(segments, n - 1);
        let rest = spans(segments, n - 1);
        let all = spans(segments, n);
        assert forall|i: int, j: int| 0 <= i < j < all.len() implies (#[trigger] all[i]).end_idx <= (
        #[trigger] all[j]).start_idx by {
            if j < rest.len() {
                assert(rest[i].end_idx <= rest[j].start_idx);
            } else {
                assert(rest[i].end_idx <= offset(segments, n - 1));
            }
        }
        assert forall|i: int| 0 <= i < all.len() implies (#[trigger] all[i]).start_idx
            <= all[i].end_idx <= offset(segments, n) by {
            if i < rest.len() {
                assert(rest[i].start_idx <= rest[i].end_idx <= offset(segments, n - 1));
            }
        }
    }
}

/// The text that the first `n` segments spell together.
pub open spec fn joined(segments: Seq<RubyView>, n: int) -> Seq<char>
    decreases n,
{
    if n <= 0 {
        Seq::empty()
    } else {
        joined(segments, n - 1) + segments[n - 1].ruby
    }
}

/// The segments take as many bytes as the text they spell together: where
/// they spell the written form, their offsets are offsets into it.
pub proof fn lemma_offset_is_length(segments: Seq<RubyView>, n: int)
    ensures
        offset(segments, n) == byte_len(joined(segments, n)),
    decreases n,
{
    if n > 0 {
        lemma_offset_is_length(segments, n - 1);
        crate::text::lemma_byte_len_concat(joined(segments, n - 1), segments[n - 1].ruby);
    } else {
        assert(byte_len(Seq::<char>::empty()) == 0);
    }
}

/// Where the segments of a furigana record spell its written form and each
/// of them is annotated, the spans stand in order without overlap and the
/// last one ends where the written form ends.
pub proof fn lemma_spans_cover_written_form(record: jmdict_furigana::FuriganaView)
    requires
        record.furigana.len() > 0,
        joined(record.furigana, record.furigana.len() as int) == record.text,
        byte_len(record.text) <= usize::MAX,
        forall|k: int| 0 <= k < record.furigana.len() ==> (#[trigger] record.furigana[k]).rt is Some,
    ensures
        ({
            let found = spans(record.furigana, record.furigana.len() as int);
            &&& found.len() == record.furigana.len()
            &&& forall|i: int, j: int|
                0 <= i < j < found.len() ==> (#[trigger] found[i]).end_idx <= (
                #[trigger] found[j]).start_idx
            &&& forall|i: int|
                0 <= i < found.len() ==> (#[trigger] found[i]).start_idx <= found[i].end_idx
            &&& found.last().end_idx == byte_len(record.text)
        }),
{
    let n = record.furigana.len() as int;
    lemma_offset_is_length(record.furigana, n);
    lemma_spans_in_order(record.furigana, n);
}

/// Fills the wordfile skeleton with data.
///
/// The entries of the JMdict are turned into rows, one for each written form
/// and each reading that applies to it, and each row is filled into the words
/// that stand for its entry and have its written form. Such a word takes the
/// glosses of the last of its rows as its meanings. Its readings are derived
/// anew: they are the readings of its rows, each with its furigana, but for
/// the rows whose reading is the written form itself. A word that no row is
/// about stays as it is. The header takes the given version of the JMdict.
/// Where something keeps the skeleton from being filled, that is returned and
/// nothing changes.
pub fn fill_skeleton(
    skeleton: &mut Wordfile,
    jmdict: JMdict,
    jmdict_version: String,
    furigana: Vec<jmdict_furigana::Furigana>,
) -> (r: Result<(), Error>)
    ensures
        match r {
            Ok(()) => {
                &&& fault(old(skeleton)@, jmdict@.entry, views(furigana@)) is None
                &&& final(skeleton)@ == filled(
                    old(skeleton)@,
                    jmdict@.entry,
                    jmdict_version@,
                    views(furigana@),
                )
            },
            Err(e) => {
                &&& fault(old(skeleton)@, jmdict@.entry, views(furigana@)) == Some(e)
                &&& *final(skeleton) == *old(skeleton)
            },
        },
        final(skeleton)@.words.len() == old(skeleton)@.words.len(),
        forall|j: int|
            #![trigger final(skeleton)@.words[j]]
            0 <= j < old(skeleton)@.words.len() ==> {
                &&& final(skeleton)@.words[j].id == old(skeleton)@.words[j].id
                &&& final(skeleton)@.words[j].jmdict_id == old(skeleton)@.words[j].jmdict_id
                &&& final(skeleton)@.words[j].written_forms == old(skeleton)@.words[j].written_forms
            },
        unique_ids(old(skeleton)@.words) ==> unique_ids(final(skeleton)@.words),
{
    let ghost before = skeleton@;
    proof {
        lemma_fill_keeps_identity(before, jmdict@.entry, jmdict_version@, views(furigana@));
    }
    let index = match process_furigana(&furigana) {
        Ok(index) => index,
        Err(e) => {
            return Err(e);
        },
    };
    let jmdict_words = match process_jmdict(&jmdict, &index) {
        Ok(found) => found,
        Err(e) => {
            return Err(e);
        },
    };
    let ghost rows = views(jmdict_words@);
    let places = places_by_entry(&skeleton.words);
    let mut i: usize = 0;
    while i < jmdict_words.len()
        invariant
            i <= jmdict_words.len(),
            rows == views(jmdict_words@),
            rows == words(furigana_index(views(furigana@)), jmdict@.entry),
            first_overflow(views(furigana@)) is None,
            first_invalid(jmdict@.entry) is None,
            *skeleton == *old(skeleton),
            before == skeleton@,
            places@ == entry_ids(before.words),
            first_missing(before.words, rows.take(i as int)) is None,
        decreases jmdict_words.len() - i,
    {
        proof {
            assert(rows.take(i + 1).drop_last() =~= rows.take(i as int));
            assert(rows.take(i + 1).last() == rows[i as int]);
        }
        let jmdict_id = jmdict_words[i].jmdict_id;
        assert(rows[i as int].jmdict_id == jmdict_id);
        let stands = places.first(&Some(jmdict_id)).is_some();
        proof {
            lemma_first_place(entry_ids(before.words), Some(jmdict_id));
            if has_entry(before.words, jmdict_id) {
                let j = choose|j: int|
                    0 <= j < before.words.len() && (#[trigger] before.words[j]).jmdict_id == Some(
                        jmdict_id,
                    );
                assert(entry_ids(before.words)[j] == Some(jmdict_id));
            }
            if stands {
                let p = first_place(entry_ids(before.words), Some(jmdict_id)).unwrap();
                assert(before.words[p].jmdict_id == Some(jmdict_id));
            }
            assert(stands == has_entry(before.words, jmdict_id));
        }
        if !stands {
            proof {
                assert(first_missing(before.words, rows.take(i + 1)) == Some(i as int));
                lemma_first_missing_stays(before.words, rows, i + 1, rows.len() as int);
                assert(rows.take(rows.len() as int) =~= rows);
            }
            return Err(Error::MissingJmdictId { jmdict_id });
        }
        i += 1;
    }
    assert(rows.take(i as int) =~= rows);
    let mut touched: Vec<bool> = vec![false; skeleton.words.len()];
    let mut i: usize = 0;
    while i < jmdict_words.len()
        invariant
            i <= jmdict_words.len(),
            rows == views(jmdict_words@),
            skeleton.header == old(skeleton).header,
            skeleton.words.len() == before.words.len(),
            touched.len() == before.words.len(),
            places@ == entry_ids(before.words),
            forall|j: int|
                0 <= j < before.words.len() ==> #[trigger] views(skeleton.words@)[j] == after_rows(
                    before.words[j],
                    rows.take(i as int),
                ),
            forall|j: int|
                0 <= j < before.words.len() ==> (#[trigger] touched[j] <==> last_hit(
                    before.words[j],
                    rows.take(i as int),
                ) is Some),
        decreases jmdict_words.len() - i,
    {
        let row = &jmdict_words[i];
        let found = places.all(&Some(row.jmdict_id));
        let mut t: usize = 0;
        while t < found.len()
            invariant
                t <= found.len(),
                i < jmdict_words.len(),
                rows == views(jmdict_words@),
                *row == jmdict_words@[i as int],
                skeleton.header == old(skeleton).header,
                skeleton.words.len() == before.words.len(),
                touched.len() == before.words.len(),
                forall|a: int, b: int| 0 <= a < b < found.len() ==> found[a] < found[b],
                forall|a: int| 0 <= a < found.len() ==> (#[trigger] found[a]) < before.words.len(),
                forall|j: int|
                    0 <= j < before.words.len() ==> #[trigger] views(skeleton.words@)[j] == after_rows(
                        before.words[j],
                        if exists|a: int| 0 <= a < t && found[a] == j {
                            rows.take(i + 1)
                        } else {
                            rows.take(i as int)
                        },
                    ),
                forall|j: int|
                    0 <= j < before.words.len() ==> (#[trigger] touched[j] <==> last_hit(
                        before.words[j],
                        if exists|a: int| 0 <= a < t && found[a] == j {
                            rows.take(i + 1)
                        } else {
                            rows.take(i as int)
                        },
                    ) is Some),
            decreases found.len() - t,
        {
            let ghost held = views(skeleton.words@);
            let ghost marks = touched@;
            let p = found[t];
            proof {
                if exists|a: int| 0 <= a < t && found[a] == p {
                    let a = choose|a: int| 0 <= a < t && found[a] == p;
                    assert(found[a] < found[t as int]);
                }
                lemma_after_rows_step(before.words[p as int], rows, i as int);
                assert(held[p as int] == after_rows(before.words[p as int], rows.take(i as int)));
                assert(marks[p as int] == (last_hit(before.words[p as int], rows.take(i as int)) is Some));
            }
            let first = !touched[p];
            let hit = apply_row(&mut skeleton.words[p], row, first);
            if hit {
                touched.set(p, true);
            }
            proof {
                let now = views(skeleton.words@);
                assert(row@ == rows[i as int]);
                assert(now[p as int] == after_row(held[p as int], row@, first));
                assert(hit == hits(before.words[p as int], rows[i as int]));
                assert forall|j: int| 0 <= j < before.words.len() implies #[trigger] now[j] == after_rows(
                    before.words[j],
                    if exists|a: int| 0 <= a < t + 1 && found[a] == j {
                        rows.take(i + 1)
                    } else {
                        rows.take(i as int)
                    },
                ) by {
                    if j == p {
                        assert(found[t as int] == j);
                    } else {
                        assert(now[j] == held[j]);
                        if exists|a: int| 0 <= a < t + 1 && found[a] == j {
                            let a = choose|a: int| 0 <= a < t + 1 && found[a] == j;
                            assert(a < t);
                        }
                    }
                }
                assert forall|j: int| 0 <= j < before.words.len() implies (#[trigger] touched[j] <==> last_hit(
                    before.words[j],
                    if exists|a: int| 0 <= a < t + 1 && found[a] == j {
                        rows.take(i + 1)
                    } else {
                        rows.take(i as int)
                    },
                ) is Some) by {
                    if j == p {
                        assert(found[t as int] == j);
                    } else {
                        assert(touched[j] == marks[j]);
                        if exists|a: int| 0 <= a < t + 1 && found[a] == j {
                            let a = choose|a: int| 0 <= a < t + 1 && found[a] == j;
                            assert(a < t);
                        }
                    }
                }
            }
            t += 1;
        }
        proof {
            let now = views(skeleton.words@);
            assert forall|j: int|
                0 <= j < before.words.len() && !(exists|a: int|
                    0 <= a < found.len() && found[a] == j) implies !hits(
                before.words[j],
                rows[i as int],
            ) by {
                let w = before.words[j];
                if w.jmdict_id == Some(row.jmdict_id) {
                    assert(entry_ids(before.words)[j] == Some(row.jmdict_id));
                    assert(found@.contains(j as usize));
                    let a = choose|a: int| 0 <= a < found.len() && found[a] == j as usize;
                    assert(found[a] == j);
                }
            }
            assert forall|j: int| 0 <= j < before.words.len() implies #[trigger] now[j] == after_rows(
                before.words[j],
                rows.take(i + 1),
            ) by {
                lemma_after_rows_step(before.words[j], rows, i as int);
            }
            assert forall|j: int| 0 <= j < before.words.len() implies (#[trigger] touched[j] <==> last_hit(
                before.words[j],
                rows.take(i + 1),
            ) is Some) by {
                lemma_after_rows_step(before.words[j], rows, i as int);
            }
        }
        i += 1;
    }
    skeleton.header.jmdict_version = jmdict_version;
    proof {
        assert(rows.take(i as int) =~= rows);
        assert(skeleton@.words =~= filled(
            before,
            jmdict@.entry,
            jmdict_version@,
            views(furigana@),
        ).words);
    }
    Ok(())
}

} // verus!
