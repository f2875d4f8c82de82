//! Creates and updates the skeleton of the kanjifile: which kanji there are,
//! each under a permanent id.

use crate::input::jmdict::{Entry, EntryView, JMdict, KEle, KEleView};
use crate::input::kanjidic2::{Character, CharacterView, Kanjidic2};
use crate::kanjifile::{
    lemma_max_id_bounds, literals, max_id, unique, Header, Kanji, KanjiView, Kanjifile,
    KanjifileView,
};
use crate::ordered::{
    find_sorted, keys, lemma_push_set, lemma_strictly_sorted_len, lemma_strictly_sorted_unique,
    order_of, sorted, sorted_set, strictly_sorted,
};
use crate::text::{chars_of, lemma_keys_are_views, views};
use vstd::prelude::*;
use vstd::relations::sorted_by;
use vstd::string::StrSliceExecFns;

verus! {

/// Why a skeleton could not be brought up to date.
#[derive(Debug, Clone, Copy, PartialEq, Eq)]
pub enum Error {
    /// The new kanji outnumber the ids that are left.
    OutOfIds,
}

/// Whether a code point lies in one of the blocks of CJK unified ideographs:
/// the basic block or one of the extensions B to H, each from its first code
/// point to its last.
pub open spec fn is_kanji_code(c: u32) -> bool {
    ||| 0x4E00 <= c <= 0x9FFF
    ||| 0x20000 <= c <= 0x2A6DF
    ||| 0x2A700 <= c <= 0x2B73F
    ||| 0x2B740 <= c <= 0x2B81F
    ||| 0x2B820 <= c <= 0x2CEAF
    ||| 0x2CEB0 <= c <= 0x2EBEF
    ||| 0x30000 <= c <= 0x3134F
    ||| 0x31350 <= c <= 0x323AF
}

/// Whether a character is a kanji.
pub fn is_kanji(c: char) -> (r: bool)
    ensures
        r == is_kanji_code(c as u32),
{
    let code: u32 = c as u32;
    (0x4E00 <= code && code <= 0x9FFF) || (0x20000 <= code && code <= 0x2A6DF) || (0x2A700
        <= code && code <= 0x2B73F) || (0x2B740 <= code && code <= 0x2B81F) || (0x2B820 <= code
        && code <= 0x2CEAF) || (0x2CEB0 <= code && code <= 0x2EBEF) || (0x30000 <= code && code
        <= 0x3134F) || (0x31350 <= code && code <= 0x323AF)
}

/// The literals that the character dictionary lists.
pub open spec fn dictionary_literals(characters: Seq<CharacterView>) -> Set<Seq<char>> {
    Set::new(
        |l: Seq<char>|
            exists|i: int| 0 <= i < characters.len() && (#[trigger] characters[i]).literal == l,
    )
}

/// The kanji that occur in a text, each as a text of its own.
pub open spec fn kanji_in_text(text: Seq<char>) -> Set<Seq<char>> {
    Set::new(
        |l: Seq<char>|
            exists|p: int|
                0 <= p < text.len() && is_kanji_code(#[trigger] text[p] as u32) && l == seq![text[p]],
    )
}

/// The kanji that occur in a list of written forms.
pub open spec fn kanji_in_forms(forms: Seq<KEleView>) -> Set<Seq<char>> {
    Set::new(
        |l: Seq<char>|
            exists|k: int|
                0 <= k < forms.len() && kanji_in_text((#[trigger] forms[k]).keb).contains(l),
    )
}

/// The kanji that occur in the written forms of a word dictionary.
pub open spec fn kanji_in_entries(entries: Seq<EntryView>) -> Set<Seq<char>> {
    Set::new(
        |l: Seq<char>|
            exists|i: int|
                0 <= i < entries.len() && kanji_in_forms((#[trigger] entries[i]).k_ele).contains(
                    l,
                ),
    )
}

/// The literals that a skeleton lacks: those of the character dictionary, and
/// the kanji that only the written forms of the word dictionary show.
pub open spec fn new_literals(
    skeleton: KanjifileView,
    characters: Seq<CharacterView>,
    entries: Seq<EntryView>,
) -> Set<Seq<char>> {
    dictionary_literals(characters).union(kanji_in_entries(entries)).difference(
        literals(skeleton.kanji),
    )
}

/// The literals of the entries from position `from` on.
pub open spec fn literals_from(kanji: Seq<KanjiView>, from: int) -> Seq<Seq<char>> {
    Seq::new((kanji.len() - from) as nat, |i: int| kanji[from + i].kanji)
}

/// Whether `after` is `before` brought up to date: the entries of `before`
/// stand untouched and in place, and behind them one bare entry for each
/// literal of `added`, in ascending order of the literals and with the ids
/// that follow the largest id of `before`.
pub open spec fn extends(
    before: KanjifileView,
    after: KanjifileView,
    added: Set<Seq<char>>,
    version: Seq<char>,
) -> bool {
    let n = before.kanji.len() as int;
    &&& after.header.version == before.header.version
    &&& after.header.kanjidic2_version == version
    &&& after.kanji.len() >= n
    &&& after.kanji.take(n) == before.kanji
    &&& strictly_sorted::<String>(literals_from(after.kanji, n))
    &&& literals_from(after.kanji, n).to_set() == added
    &&& max_id(before.kanji) + (after.kanji.len() - n) <= u16::MAX
    &&& forall|i: int|
        n <= i < after.kanji.len() ==> #[trigger] after.kanji[i] == KanjiView::bare(
            (max_id(before.kanji) + 1 + (i - n)) as u16,
            after.kanji[i].kanji,
        )
}

/// What a gathering holds after a step: what it held before, and what the
/// step found that was not known already.
pub open spec fn gathered(
    before: Set<Seq<char>>,
    found: Set<Seq<char>>,
    known: Set<Seq<char>>,
) -> Set<Seq<char>> {
    before.union(found.difference(known))
}

proof fn lemma_kanji_in_text_step(text: Seq<char>, p: int, l: Seq<char>)
    requires
        0 <= p < text.len(),
    ensures
        kanji_in_text(text.take(p + 1)).contains(l) <==> kanji_in_text(text.take(p)).contains(l)
            || (is_kanji_code(text[p] as u32) && l == seq![text[p]]),
{
    let a = text.take(p);
    let b = text.take(p + 1);
    if kanji_in_text(b).contains(l) {
        let q = choose|q: int| 0 <= q < b.len() && is_kanji_code(#[trigger] b[q] as u32) && l == seq![b[q]];
        if q < p {
            assert(is_kanji_code(a[q] as u32) && l == seq![a[q]]);
        }
    }
    if kanji_in_text(a).contains(l) {
        let q = choose|q: int| 0 <= q < a.len() && is_kanji_code(#[trigger] a[q] as u32) && l == seq![a[q]];
        assert(is_kanji_code(b[q] as u32) && l == seq![b[q]]);
    }
    if is_kanji_code(text[p] as u32) && l == seq![text[p]] {
        assert(is_kanji_code(b[p] as u32) && l == seq![b[p]]);
    }
}

proof fn lemma_kanji_in_forms_step(forms: Seq<KEleView>, k: int, l: Seq<char>)
    requires
        0 <= k < forms.len(),
    ensures
        kanji_in_forms(forms.take(k + 1)).contains(l) <==> kanji_in_forms(forms.take(k)).contains(
            l,
        ) || kanji_in_text(forms[k].keb).contains(l),
{
    let a = forms.take(k);
    let b = forms.take(k + 1);
    if kanji_in_forms(b).contains(l) {
        let q = choose|q: int| 0 <= q < b.len() && kanji_in_text((#[trigger] b[q]).keb).contains(l);
        if q < k {
            assert(kanji_in_text(a[q].keb).contains(l));
        }
    }
    if kanji_in_forms(a).contains(l) {
        let q = choose|q: int| 0 <= q < a.len() && kanji_in_text((#[trigger] a[q]).keb).contains(l);
        assert(kanji_in_text(b[q].keb).contains(l));
    }
    if kanji_in_text(forms[k].keb).contains(l) {
        assert(kanji_in_text(b[k].keb).contains(l));
    }
}

proof fn lemma_kanji_in_entries_step(entries: Seq<EntryView>, k: int, l: Seq<char>)
    requires
        0 <= k < entries.len(),
    ensures
        kanji_in_entries(entries.take(k + 1)).contains(l) <==> kanji_in_entries(
            entries.take(k),
        ).contains(l) || kanji_in_forms(entries[k].k_ele).contains(l),
{
    let a = entries.take(k);
    let b = entries.take(k + 1);
    if kanji_in_entries(b).contains(l) {
        let q = choose|q: int|
            0 <= q < b.len() && kanji_in_forms((#[trigger] b[q]).k_ele).contains(l);
        if q < k {
            assert(kanji_in_forms(a[q].k_ele).contains(l));
        }
    }
    if kanji_in_entries(a).contains(l) {
        let q = choose|q: int|
            0 <= q < a.len() && kanji_in_forms((#[trigger] a[q]).k_ele).contains(l);
        assert(kanji_in_forms(b[q].k_ele).contains(l));
    }
    if kanji_in_forms(entries[k].k_ele).contains(l) {
        assert(kanji_in_forms(b[k].k_ele).contains(l));
    }
}

proof fn lemma_dictionary_literals_step(characters: Seq<CharacterView>, k: int, l: Seq<char>)
    requires
        0 <= k < characters.len(),
    ensures
        dictionary_literals(characters.take(k + 1)).contains(l) <==> dictionary_literals(
            characters.take(k),
        ).contains(l) || characters[k].literal == l,
{
    let a = characters.take(k);
    let b = characters.take(k + 1);
    if dictionary_literals(b).contains(l) {
        let q = choose|q: int| 0 <= q < b.len() && (#[trigger] b[q]).literal == l;
        if q < k {
            assert(a[q].literal == l);
        }
    }
    if dictionary_literals(a).contains(l) {
        let q = choose|q: int| 0 <= q < a.len() && (#[trigger] a[q]).literal == l;
        assert(b[q].literal == l);
    }
    if characters[k].literal == l {
        assert(b[k].literal == l);
    }
}

/// Adds `text` to the gathering unless it is known already.
fn gather(text: String, known: &Vec<String>, out: &mut Vec<String>)
    requires
        sorted_by(keys(known@), order_of::<String>()),
    ensures
        views(final(out)@).to_set() == gathered(
            views(old(out)@).to_set(),
            set![text@],
            views(known@).to_set(),
        ),
{
    let ghost before = views(out@);
    proof {
        lemma_keys_are_views(known@);
    }
    if find_sorted(known, &text).is_none() {
        let ghost t = text@;
        out.push(text);
        proof {
            assert(views(out@) =~= before.push(t));
            assert forall|l: Seq<char>| views(out@).to_set().contains(l) <==> gathered(
                before.to_set(),
                set![t],
                views(known@).to_set(),
            ).contains(l) by {
                lemma_push_set(before, t, l);
            }
            assert(views(out@).to_set() =~= gathered(
                before.to_set(),
                set![t],
                views(known@).to_set(),
            ));
        }
    } else {
        assert(views(known@).to_set().contains(text@));
        assert(before.to_set() =~= gathered(
            before.to_set(),
            set![text@],
            views(known@).to_set(),
        ));
    }
}

/// Adds the kanji of a written form to the gathering.
fn gather_text(text: &str, known: &Vec<String>, out: &mut Vec<String>)
    requires
        sorted_by(keys(known@), order_of::<String>()),
    ensures
        views(final(out)@).to_set() == gathered(
            views(old(out)@).to_set(),
            kanji_in_text(text@),
            views(known@).to_set(),
        ),
{
    let chars = chars_of(text);
    let ghost start = views(out@).to_set();
    let ghost known_set = views(known@).to_set();
    let mut p: usize = 0;
    assert(start =~= gathered(start, kanji_in_text(text@.take(0)), known_set));
    while p < chars.len()
        invariant
            p <= chars.len(),
            chars@ == text@,
            known_set == views(known@).to_set(),
            sorted_by(keys(known@), order_of::<String>()),
            views(out@).to_set() == gathered(start, kanji_in_text(text@.take(p as int)), known_set),
        decreases chars.len() - p,
    {
        let ghost before = views(out@).to_set();
        if is_kanji(chars[p]) {
            let literal = text.substring_char(p, p + 1).to_owned();
            assert(literal@ =~= seq![text@[p as int]]);
            gather(literal, known, out);
        }
        proof {
            assert forall|l: Seq<char>| views(out@).to_set().contains(l) <==> gathered(
                start,
                kanji_in_text(text@.take(p + 1)),
                known_set,
            ).contains(l) by {
                lemma_kanji_in_text_step(text@, p as int, l);
            }
            assert(views(out@).to_set() =~= gathered(
                start,
                kanji_in_text(text@.take(p + 1)),
                known_set,
            ));
        }
        p += 1;
    }
    assert(text@.take(p as int) =~= text@);
}

/// Adds the kanji of a list of written forms to the gathering.
fn gather_forms(forms: &Vec<KEle>, known: &Vec<String>, out: &mut Vec<String>)
    requires
        sorted_by(keys(known@), order_of::<String>()),
    ensures
        views(final(out)@).to_set() == gathered(
            views(old(out)@).to_set(),
            kanji_in_forms(views(forms@)),
            views(known@).to_set(),
        ),
{
    let ghost start = views(out@).to_set();
    let ghost known_set = views(known@).to_set();
    let mut k: usize = 0;
    assert(start =~= gathered(start, kanji_in_forms(views(forms@).take(0)), known_set));
    while k < forms.len()
        invariant
            k <= forms.len(),
            known_set == views(known@).to_set(),
            sorted_by(keys(known@), order_of::<String>()),
            views(out@).to_set() == gathered(start, kanji_in_forms(views(forms@).take(k as int)), known_set),
        decreases forms.len() - k,
    {
        gather_text(forms[k].keb.as_str(), known, out);
        proof {
            assert forall|l: Seq<char>| views(out@).to_set().contains(l) <==> gathered(
                start,
                kanji_in_forms(views(forms@).take(k + 1)),
                known_set,
            ).contains(l) by {
                lemma_kanji_in_forms_step(views(forms@), k as int, l);
            }
            assert(views(out@).to_set() =~= gathered(
                start,
                kanji_in_forms(views(forms@).take(k + 1)),
                known_set,
            ));
        }
        k += 1;
    }
    assert(views(forms@).take(k as int) =~= views(forms@));
}

/// Adds the kanji of the written forms of a word dictionary to the gathering.
fn gather_entries(entries: &Vec<Entry>, known: &Vec<String>, out: &mut Vec<String>)
    requires
        sorted_by(keys(known@), order_of::<String>()),
    ensures
        views(final(out)@).to_set() == gathered(
            views(old(out)@).to_set(),
            kanji_in_entries(views(entries@)),
            views(known@).to_set(),
        ),
{
    let ghost start = views(out@).to_set();
    let ghost known_set = views(known@).to_set();
    let mut k: usize = 0;
    assert(start =~= gathered(start, kanji_in_entries(views(entries@).take(0)), known_set));
    while k < entries.len()
        invariant
            k <= entries.len(),
            known_set == views(known@).to_set(),
            sorted_by(keys(known@), order_of::<String>()),
            views(out@).to_set() == gathered(
                start,
                kanji_in_entries(views(entries@).take(k as int)),
                known_set,
            ),
        decreases entries.len() - k,
    {
        gather_forms(&entries[k].k_ele, known, out);
        proof {
            assert forall|l: Seq<char>| views(out@).to_set().contains(l) <==> gathered(
                start,
                kanji_in_entries(views(entries@).take(k + 1)),
                known_set,
            ).contains(l) by {
                lemma_kanji_in_entries_step(views(entries@), k as int, l);
            }
            assert(views(out@).to_set() =~= gathered(
                start,
                kanji_in_entries(views(entries@).take(k + 1)),
                known_set,
            ));
        }
        k += 1;
    }
    assert(views(entries@).take(k as int) =~= views(entries@));
}

/// Adds the literals of a character dictionary to the gathering.
fn gather_dictionary(characters: &Vec<Character>, known: &Vec<String>, out: &mut Vec<String>)
    requires
        sorted_by(keys(known@), order_of::<String>()),
    ensures
        views(final(out)@).to_set() == gathered(
            views(old(out)@).to_set(),
            dictionary_literals(views(characters@)),
            views(known@).to_set(),
        ),
{
    let ghost start = views(out@).to_set();
    let ghost known_set = views(known@).to_set();
    let mut k: usize = 0;
    assert(start =~= gathered(start, dictionary_literals(views(characters@).take(0)), known_set));
    while k < characters.len()
        invariant
            k <= characters.len(),
            known_set == views(known@).to_set(),
            sorted_by(keys(known@), order_of::<String>()),
            views(out@).to_set() == gathered(
                start,
                dictionary_literals(views(characters@).take(k as int)),
                known_set,
            ),
        decreases characters.len() - k,
    {
        gather(characters[k].literal.clone(), known, out);
        proof {
            assert forall|l: Seq<char>| views(out@).to_set().contains(l) <==> gathered(
                start,
                dictionary_literals(views(characters@).take(k + 1)),
                known_set,
            ).contains(l) by {
                lemma_dictionary_literals_step(views(characters@), k as int, l);
            }
            assert(views(out@).to_set() =~= gathered(
                start,
                dictionary_literals(views(characters@).take(k + 1)),
                known_set,
            ));
        }
        k += 1;
    }
    assert(views(characters@).take(k as int) =~= views(characters@));
}

/// The literals of the entries from position `from` on that the character
/// dictionary does not list, in the order of the entries.
pub open spec fn unlisted(
    kanji: Seq<KanjiView>,
    from: int,
    characters: Seq<CharacterView>,
) -> Seq<Seq<char>>
    decreases kanji.len(),
{
    if kanji.len() <= from || kanji.len() == 0 {
        Seq::empty()
    } else if dictionary_literals(characters).contains(kanji.last().kanji) {
        unlisted(kanji.drop_last(), from, characters)
    } else {
        unlisted(kanji.drop_last(), from, characters).push(kanji.last().kanji)
    }
}

/// The kanji among the entries from position `from` on that the KANJIDIC2
/// does not list: where those are the entries that an update has added, the
/// kanji that only the written forms of the JMdict have shown.
pub fn not_in_dictionary(kanji: &Vec<Kanji>, from: usize, kd2: &Kanjidic2) -> (r: Vec<String>)
    ensures
        views(r@) == unlisted(views(kanji@), from as int, kd2@.character),
{
    let ghost entries = views(kanji@);
    let ghost characters = kd2@.character;
    let mut out: Vec<String> = Vec::new();
    if from >= kanji.len() {
        assert(views(out@) =~= Seq::<Seq<char>>::empty());
        return out;
    }
    let mut all: Vec<String> = Vec::new();
    let mut i: usize = 0;
    while i < kd2.character.len()
        invariant
            i <= kd2.character.len(),
            all.len() == i,
            forall|k: int| 0 <= k < i ==> (#[trigger] all@[k])@ == kd2@.character[k].literal,
        decreases kd2.character.len() - i,
    {
        all.push(kd2.character[i].literal.clone());
        i += 1;
    }
    let listed = sorted(&all);
    proof {
        assert forall|l: Seq<char>| keys(listed@).to_set().contains(l) <==> dictionary_literals(
            characters,
        ).contains(l) by {
            if dictionary_literals(characters).contains(l) {
                let k = choose|k: int|
                    0 <= k < characters.len() && (#[trigger] characters[k]).literal == l;
                assert(keys(all@)[k] == l);
            }
            if keys(all@).to_set().contains(l) {
                let k = choose|k: int| 0 <= k < all.len() && keys(all@)[k] == l;
                assert(characters[k].literal == l);
            }
        }
    }
    let mut j: usize = from;
    assert(views(out@) =~= unlisted(entries.take(j as int), from as int, characters));
    while j < kanji.len()
        invariant
            from <= j <= kanji.len(),
            entries == views(kanji@),
            characters == kd2@.character,
            sorted_by(keys(listed@), order_of::<String>()),
            forall|l: Seq<char>|
                keys(listed@).to_set().contains(l) <==> dictionary_literals(characters).contains(l),
            views(out@) == unlisted(entries.take(j as int), from as int, characters),
        decreases kanji.len() - j,
    {
        let ghost prev = views(out@);
        proof {
            assert(entries.take(j + 1).drop_last() =~= entries.take(j as int));
            assert(entries.take(j + 1).last() == entries[j as int]);
        }
        if find_sorted(&listed, &kanji[j].kanji).is_none() {
            out.push(kanji[j].kanji.clone());
            assert(views(out@) =~= prev.push(entries[j as int].kanji));
        } else {
            assert(keys(listed@).to_set().contains(entries[j as int].kanji));
        }
        j += 1;
    }
    assert(entries.take(j as int) =~= entries);
    out
}

/// The literals of the entries, in ascending order.
fn known_literals(kanji: &Vec<Kanji>) -> (r: Vec<String>)
    ensures
        sorted_by(keys(r@), order_of::<String>()),
        views(r@).to_set() == literals(views(kanji@)),
{
    let mut all: Vec<String> = Vec::new();
    let mut i: usize = 0;
    while i < kanji.len()
        invariant
            i <= kanji.len(),
            all.len() == i,
            forall|k: int| 0 <= k < i ==> all@[k]@ == kanji@[k].kanji@,
        decreases kanji.len() - i,
    {
        all.push(kanji[i].kanji.clone());
        i += 1;
    }
    let out = sorted(&all);
    proof {
        lemma_keys_are_views(all@);
        lemma_keys_are_views(out@);
        let entries = views(kanji@);
        assert forall|l: Seq<char>| views(all@).to_set().contains(l) <==> literals(
            entries,
        ).contains(l) by {
            if views(all@).to_set().contains(l) {
                let k = choose|k: int| 0 <= k < all.len() && views(all@)[k] == l;
                assert(entries[k].kanji == l);
            }
            if literals(entries).contains(l) {
                let k = choose|k: int| 0 <= k < entries.len() && (#[trigger] entries[k]).kanji == l;
                assert(views(all@)[k] == l);
            }
        }
        assert(views(all@).to_set() =~= literals(entries));
    }
    out
}

/// The largest id among the entries, 0 where there is none.
fn largest_id(kanji: &Vec<Kanji>) -> (r: u16)
    ensures
        r == max_id(views(kanji@)),
{
    let mut best: u16 = 0;
    let mut i: usize = 0;
    assert(views(kanji@).take(0) =~= Seq::<KanjiView>::empty());
    while i < kanji.len()
        invariant
            i <= kanji.len(),
            best == max_id(views(kanji@).take(i as int)),
        decreases kanji.len() - i,
    {
        assert(views(kanji@).take(i + 1).drop_last() =~= views(kanji@).take(i as int));
        if kanji[i].id > best {
            best = kanji[i].id;
        }
        i += 1;
    }
    assert(views(kanji@).take(i as int) =~= views(kanji@));
    best
}

/// Bringing a skeleton up to date changes no id that it held, gives every new
/// entry an id above all of them, and keeps ids and literals free of repeats.
pub proof fn lemma_extends_keeps_identity(
    before: KanjifileView,
    after: KanjifileView,
    added: Set<Seq<char>>,
    version: Seq<char>,
)
    requires
        extends(before, after, added, version),
        added.disjoint(literals(before.kanji)),
    ensures
        forall|i: int| 0 <= i < before.kanji.len() ==> after.kanji[i] == before.kanji[i],
        forall|i: int|
            before.kanji.len() <= i < after.kanji.len() ==> (#[trigger] after.kanji[i]).id
                > max_id(before.kanji),
        unique(before.kanji) ==> unique(after.kanji),
{
    let n = before.kanji.len() as int;
    let fresh = literals_from(after.kanji, n);
    assert forall|i: int| 0 <= i < n implies after.kanji[i] == before.kanji[i] by {
        assert(after.kanji.take(n)[i] == after.kanji[i]);
    }
    if unique(before.kanji) {
        assert forall|i: int, j: int| 0 <= i < j < after.kanji.len() implies (
        #[trigger] after.kanji[i]).id != (#[trigger] after.kanji[j]).id && after.kanji[i].kanji
            != after.kanji[j].kanji by {
            if j < n {
                assert(before.kanji[i].id != before.kanji[j].id);
            } else if i < n {
                lemma_max_id_bounds(before.kanji, i);
                assert(fresh[j - n] == after.kanji[j].kanji);
                assert(fresh.to_set().contains(fresh[j - n]));
                assert(literals(before.kanji).contains(before.kanji[i].kanji));
            } else {
                assert(fresh[i - n] == after.kanji[i].kanji);
                assert(fresh[j - n] == after.kanji[j].kanji);
            }
        }
    }
}

/// There is one way only to bring a kanjifile up to date with given literals.
pub proof fn lemma_extends_is_unique(
    before: KanjifileView,
    one: KanjifileView,
    other: KanjifileView,
    added: Set<Seq<char>>,
    version: Seq<char>,
)
    requires
        extends(before, one, added, version),
        extends(before, other, added, version),
    ensures
        one == other,
{
    let n = before.kanji.len() as int;
    lemma_strictly_sorted_unique::<String>(literals_from(one.kanji, n), literals_from(other.kanji, n));
    assert(one.kanji.len() == other.kanji.len()) by {
        assert(literals_from(one.kanji, n).len() == literals_from(other.kanji, n).len());
    }
    assert forall|i: int| 0 <= i < one.kanji.len() implies one.kanji[i] == other.kanji[i] by {
        if i < n {
            assert(one.kanji.take(n)[i] == other.kanji.take(n)[i]);
        } else {
            assert(literals_from(one.kanji, n)[i - n] == literals_from(other.kanji, n)[i - n]);
        }
    }
    assert(one.kanji =~= other.kanji);
}

/// Updates a kanjifile with the kanji that it lacks: those of the KANJIDIC2
/// and those that occur in the written forms of the JMdict.
///
/// The entries that the kanjifile holds stay as they are. The new kanji follow
/// them in ascending order, each as a bare entry, with the ids that follow the
/// largest id in use; the header takes the version of the KANJIDIC2. Where
/// the ids do not suffice, nothing changes.
pub fn update(kanjifile: &mut Kanjifile, kd2: Kanjidic2, jmdict: JMdict) -> (r: Result<(), Error>)
    ensures
        new_literals(old(kanjifile)@, kd2@.character, jmdict@.entry).finite(),
        r is Err <==> max_id(old(kanjifile)@.kanji) + new_literals(
            old(kanjifile)@,
            kd2@.character,
            jmdict@.entry,
        ).len() > u16::MAX,
        r is Ok ==> extends(
            old(kanjifile)@,
            final(kanjifile)@,
            new_literals(old(kanjifile)@, kd2@.character, jmdict@.entry),
            kd2@.header.file_version,
        ),
        r is Err ==> *final(kanjifile) == *old(kanjifile),
        final(kanjifile)@.kanji.len() >= old(kanjifile)@.kanji.len(),
        forall|i: int|
            0 <= i < old(kanjifile)@.kanji.len() ==> final(kanjifile)@.kanji[i]
                == old(kanjifile)@.kanji[i],
        forall|i: int|
            old(kanjifile)@.kanji.len() <= i < final(kanjifile)@.kanji.len()
                ==> (#[trigger] final(kanjifile)@.kanji[i]).id > max_id(old(kanjifile)@.kanji),
        unique(old(kanjifile)@.kanji) ==> unique(final(kanjifile)@.kanji),
{
    let ghost before = kanjifile@;
    let ghost added = new_literals(before, kd2@.character, jmdict@.entry);
    let known = known_literals(&kanjifile.kanji);
    let mut found: Vec<String> = Vec::new();
    gather_dictionary(&kd2.character, &known, &mut found);
    gather_entries(&jmdict.entry, &known, &mut found);
    let fresh = sorted_set(&found);
    proof {
        lemma_keys_are_views(found@);
        lemma_keys_are_views(fresh@);
        assert(views(Seq::<String>::empty()).to_set() =~= Set::<Seq<char>>::empty());
        assert(views(fresh@).to_set() =~= added);
        lemma_strictly_sorted_len::<String>(views(fresh@));
    }
    let last = largest_id(&kanjifile.kanji);
    if fresh.len() > (u16::MAX - last) as usize {
        return Err(Error::OutOfIds);
    }
    let ghost held = kanjifile.kanji@.len() as int;
    let mut i: usize = 0;
    while i < fresh.len()
        invariant
            i <= fresh.len(),
            last == max_id(before.kanji),
            last + fresh.len() <= u16::MAX,
            held == before.kanji.len(),
            kanjifile.header == old(kanjifile).header,
            kanjifile.kanji@.len() == held + i,
            views(kanjifile.kanji@).take(held) == before.kanji,
            forall|k: int|
                0 <= k < i ==> #[trigger] views(kanjifile.kanji@)[held + k] == KanjiView::bare(
                    (last + 1 + k) as u16,
                    fresh@[k]@,
                ),
        decreases fresh.len() - i,
    {
        let ghost prev = views(kanjifile.kanji@);
        let entry = Kanji {
            id: last + 1 + i as u16,
            kanji: fresh[i].clone(),
            components: Vec::new(),
            name: None,
            meanings: Vec::new(),
            similar: Vec::new(),
        };
        proof {
            assert(views(entry.components@) =~= Seq::<Seq<char>>::empty());
            assert(views(entry.meanings@) =~= Seq::<Seq<char>>::empty());
            assert(views(entry.similar@) =~= Seq::<Seq<char>>::empty());
            assert(entry@ == KanjiView::bare((last + 1 + i) as u16, fresh@[i as int]@));
        }
        kanjifile.kanji.push(entry);
        proof {
            assert(views(kanjifile.kanji@) =~= prev.push(entry@));
            assert(views(kanjifile.kanji@).take(held) =~= prev.take(held));
        }
        i += 1;
    }
    kanjifile.header.kanjidic2_version = kd2.header.file_version;
    proof {
        let after = kanjifile@;
        assert(literals_from(after.kanji, held) =~= views(fresh@));
        assert forall|k: int| held <= k < after.kanji.len() implies #[trigger] after.kanji[k]
            == KanjiView::bare((max_id(before.kanji) + 1 + (k - held)) as u16, after.kanji[k].kanji) by {
            assert(after.kanji[held + (k - held)] == KanjiView::bare(
                (last + 1 + (k - held)) as u16,
                fresh@[k - held]@,
            ));
        }
        assert(extends(before, after, added, kd2@.header.file_version));
        lemma_extends_keeps_identity(before, after, added, kd2@.header.file_version);
    }
    Ok(())
}

/// Creates the skeleton of a kanjifile: one bare entry for each kanji of the
/// KANJIDIC2 and of the written forms of the JMdict, with no version of its
/// own yet.
pub fn create(kd2: Kanjidic2, jmdict: JMdict) -> (r: Result<Kanjifile, Error>)
    ensures
        new_literals(KanjifileView::blank(), kd2@.character, jmdict@.entry).finite(),
        r is Err <==> new_literals(KanjifileView::blank(), kd2@.character, jmdict@.entry).len()
            > u16::MAX,
        r matches Ok(kf) ==> extends(
            KanjifileView::blank(),
            kf@,
            new_literals(KanjifileView::blank(), kd2@.character, jmdict@.entry),
            kd2@.header.file_version,
        ) && unique(kf@.kanji),
{
    let header = Header { version: String::new(), kanjidic2_version: String::new() };
    let mut kf = Kanjifile { header, kanji: Vec::new() };
    assert(kf@ == KanjifileView::blank()) by {
        assert(views(kf.kanji@) =~= Seq::<KanjiView>::empty());
    }
    match update(&mut kf, kd2, jmdict) {
        Ok(()) => Ok(kf),
        Err(e) => Err(e),
    }
}

} // verus!
