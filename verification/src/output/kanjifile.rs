//! Fills the skeleton of the kanjifile with what the KANJIDIC2 and the
//! KRADFILE say of each kanji.

use crate::input::kanjidic2::{
    Character, CharacterView, Kanjidic2, Kanjidic2View, Meaning, MeaningView, RmGroupView,
};
use crate::input::kradfile::{Decomposition, DecompositionView, Kradfile, KradfileView};
use crate::kanjifile::{unique, HeaderView, Kanji, KanjiView, Kanjifile, KanjifileView};
use crate::ordered::{
    first_place, keys, last_place, lemma_first_place, order_of, sort, Places,
};
use crate::text::{clone_texts, lemma_keys_are_views, str_eq, views};
use vstd::prelude::*;
use vstd::string::StrSliceExecFns;

verus! {

/// Why a skeleton could not be filled. Each names the record of the KANJIDIC2,
/// by its position, at which the fault showed.
#[derive(Debug, Clone, Copy, PartialEq, Eq)]
pub enum Error {
    /// The skeleton has no entry for the literal of the record.
    NoSkeleton { record: usize },
    /// The literal of the record is not exactly one character.
    MultiCodepoint { record: usize },
    /// An earlier record has the same literal.
    RepeatedKanji { record: usize },
    /// The entry of an earlier record has the same id as the entry of this one.
    RepeatedId { record: usize },
}

/// The values of the meanings that carry no language tag, in order.
pub open spec fn untagged(meanings: Seq<MeaningView>) -> Seq<Seq<char>>
    decreases meanings.len(),
{
    if meanings.len() == 0 {
        Seq::empty()
    } else if meanings.last().m_lang is None {
        untagged(meanings.drop_last()).push(meanings.last().value)
    } else {
        untagged(meanings.drop_last())
    }
}

/// The untagged meanings of a list of groups, group after group.
pub open spec fn untagged_of_groups(groups: Seq<RmGroupView>) -> Seq<Seq<char>>
    decreases groups.len(),
{
    if groups.len() == 0 {
        Seq::empty()
    } else {
        untagged_of_groups(groups.drop_last()) + untagged(groups.last().meaning)
    }
}

/// The meanings that a record gives its kanji: the untagged ones, sorted.
pub open spec fn meanings_of(record: CharacterView) -> Seq<Seq<char>> {
    match record.reading_meaning {
        Some(rm) => untagged_of_groups(rm.rmgroup),
        None => Seq::empty(),
    }.sort_by(order_of::<String>())
}

/// The components that the KRADFILE lists for a kanji: those of the first
/// record that names it, none where no record does.
pub open spec fn components_of(records: Seq<DecompositionView>, kanji: Seq<char>) -> Seq<Seq<char>>
    decreases records.len(),
{
    if records.len() == 0 {
        Seq::empty()
    } else if records.first().kanji == kanji {
        records.first().components
    } else {
        components_of(records.drop_first(), kanji)
    }
}

/// An entry once a record has been filled in with the given components: the
/// meanings and components are replaced, and the first meaning serves as the
/// name where the entry had none.
pub open spec fn filled_with(
    entry: KanjiView,
    record: CharacterView,
    components: Seq<Seq<char>>,
) -> KanjiView {
    let meanings = meanings_of(record);
    KanjiView {
        id: entry.id,
        kanji: entry.kanji,
        components,
        name: match entry.name {
            Some(name) => Some(name),
            None => if meanings.len() > 0 {
                Some(meanings[0])
            } else {
                None
            },
        },
        meanings,
        similar: entry.similar,
    }
}

/// An entry once a record has been filled in, with the components that the
/// KRADFILE lists for the literal of the record.
pub open spec fn filled_in(
    entry: KanjiView,
    record: CharacterView,
    decompositions: Seq<DecompositionView>,
) -> KanjiView {
    filled_with(entry, record, components_of(decompositions, record.literal))
}

/// Where the entry for a literal stands: the position of the last entry that
/// has it.
pub open spec fn slot(entries: Seq<KanjiView>, literal: Seq<char>) -> Option<int>
    decreases entries.len(),
{
    if entries.len() == 0 {
        None
    } else if entries.last().kanji == literal {
        Some(entries.len() - 1)
    } else {
        slot(entries.drop_last(), literal)
    }
}

/// The id of the entry for a literal.
pub open spec fn id_for(entries: Seq<KanjiView>, literal: Seq<char>) -> Option<u16> {
    match slot(entries, literal) {
        Some(s) => Some(entries[s].id),
        None => None,
    }
}

/// What is wrong with record `i`, given the records before it.
pub open spec fn fault_at(entries: Seq<KanjiView>, records: Seq<CharacterView>, i: int) -> Option<
    Error,
> {
    let literal = records[i].literal;
    if slot(entries, literal) is None {
        Some(Error::NoSkeleton { record: i as usize })
    } else if literal.len() != 1 {
        Some(Error::MultiCodepoint { record: i as usize })
    } else if exists|k: int| 0 <= k < i && (#[trigger] records[k]).literal == literal {
        Some(Error::RepeatedKanji { record: i as usize })
    } else if exists|k: int|
        0 <= k < i && id_for(entries, (#[trigger] records[k]).literal) == id_for(entries, literal) {
        Some(Error::RepeatedId { record: i as usize })
    } else {
        None
    }
}

/// The first fault among the first `n` records.
pub open spec fn first_fault(entries: Seq<KanjiView>, records: Seq<CharacterView>, n: int) -> Option<
    Error,
>
    decreases n,
{
    if n <= 0 {
        None
    } else {
        match first_fault(entries, records, n - 1) {
            Some(e) => Some(e),
            None => fault_at(entries, records, n - 1),
        }
    }
}

/// The record that fills the entry at position `j`: the last one whose literal
/// has its entry there.
pub open spec fn record_for(entries: Seq<KanjiView>, records: Seq<CharacterView>, j: int) -> Option<
    int,
>
    decreases records.len(),
{
    if records.len() == 0 {
        None
    } else if slot(entries, records.last().literal) == Some(j) {
        Some(records.len() - 1)
    } else {
        record_for(entries, records.drop_last(), j)
    }
}

/// The entries once every record has been filled into the entry of its literal.
pub open spec fn filled_entries(
    entries: Seq<KanjiView>,
    records: Seq<CharacterView>,
    decompositions: Seq<DecompositionView>,
) -> Seq<KanjiView> {
    Seq::new(
        entries.len(),
        |j: int|
            match record_for(entries, records, j) {
                Some(i) => filled_in(entries[j], records[i], decompositions),
                None => entries[j],
            },
    )
}

/// The kanjifile that filling makes of a skeleton.
pub open spec fn filled(
    skeleton: KanjifileView,
    version: Seq<char>,
    kd2: Kanjidic2View,
    kf: KradfileView,
) -> KanjifileView {
    KanjifileView {
        header: HeaderView { version, kanjidic2_version: kd2.header.file_version },
        kanji: filled_entries(skeleton.kanji, kd2.character, kf.kanji_to_components),
    }
}

/// The values of the meanings that carry no language tag.
pub fn handle_meanings(meanings: &Vec<Meaning>) -> (r: Vec<String>)
    ensures
        views(r@) == untagged(views(meanings@)),
{
    let mut out: Vec<String> = Vec::new();
    let mut i: usize = 0;
    assert(views(out@) =~= untagged(views(meanings@).take(0)));
    while i < meanings.len()
        invariant
            i <= meanings.len(),
            views(out@) == untagged(views(meanings@).take(i as int)),
        decreases meanings.len() - i,
    {
        let ghost prev = views(out@);
        assert(views(meanings@).take(i + 1).drop_last() =~= views(meanings@).take(i as int));
        if meanings[i].m_lang.is_none() {
            out.push(meanings[i].value.clone());
            assert(views(out@) =~= prev.push(views(meanings@)[i as int].value));
        }
        i += 1;
    }
    assert(views(meanings@).take(i as int) =~= views(meanings@));
    out
}

/// The untagged meanings of a record, in the order in which it lists them.
fn collect_meanings(record: &Character) -> (r: Vec<String>)
    ensures
        views(r@) == match record@.reading_meaning {
            Some(rm) => untagged_of_groups(rm.rmgroup),
            None => Seq::empty(),
        },
{
    let mut out: Vec<String> = Vec::new();
    match &record.reading_meaning {
        None => {
            assert(views(out@) =~= Seq::<Seq<char>>::empty());
        },
        Some(rm) => {
            let groups = &rm.rmgroup;
            let mut i: usize = 0;
            assert(views(out@) =~= untagged_of_groups(views(groups@).take(0)));
            while i < groups.len()
                invariant
                    i <= groups.len(),
                    views(out@) == untagged_of_groups(views(groups@).take(i as int)),
                decreases groups.len() - i,
            {
                let ghost prev = views(out@);
                assert(views(groups@).take(i + 1).drop_last() =~= views(groups@).take(i as int));
                let mut more = handle_meanings(&groups[i].meaning);
                let ghost added = views(more@);
                out.append(&mut more);
                assert(views(out@) =~= prev + added);
                i += 1;
            }
            assert(views(groups@).take(i as int) =~= views(groups@));
        },
    }
    out
}

/// The components that the KRADFILE lists for a kanji.
fn find_components(records: &Vec<Decomposition>, kanji: &str) -> (r: Vec<String>)
    ensures
        views(r@) == components_of(views(records@), kanji@),
{
    let mut i: usize = 0;
    assert(views(records@).skip(0) =~= views(records@));
    while i < records.len()
        invariant
            i <= records.len(),
            components_of(views(records@), kanji@) == components_of(views(records@).skip(i as int), kanji@),
        decreases records.len() - i,
    {
        assert(views(records@).skip(i as int).drop_first() =~= views(records@).skip(i + 1));
        if str_eq(records[i].kanji.as_str(), kanji) {
            return clone_texts(&records[i].components);
        }
        i += 1;
    }
    let out: Vec<String> = Vec::new();
    assert(views(out@) =~= Seq::<Seq<char>>::empty());
    out
}

/// Fills one entry of the skeleton from the record of its kanji and the
/// components found for it.
fn fill_with(kanji: &Character, skeleton: &mut Kanji, components: Vec<String>)
    ensures
        final(skeleton)@ == filled_with(old(skeleton)@, kanji@, views(components@)),
{
    let collected = collect_meanings(kanji);
    let meanings = sort(&collected);
    proof {
        lemma_keys_are_views(collected@);
        lemma_keys_are_views(meanings@);
    }
    if skeleton.name.is_none() && meanings.len() > 0 {
        skeleton.name = Some(meanings[0].clone());
    }
    skeleton.components = components;
    skeleton.meanings = meanings;
}

/// Fills one entry of the skeleton from the record of its kanji.
pub fn fill_in_kanji(kanji: &Character, skeleton: &mut Kanji, kanji_to_components: &Vec<Decomposition>)
    ensures
        final(skeleton)@ == filled_in(old(skeleton)@, kanji@, views(kanji_to_components@)),
{
    let components = find_components(kanji_to_components, kanji.literal.as_str());
    fill_with(kanji, skeleton, components);
}

/// The kanji of the records of the KRADFILE, record by record.
pub open spec fn decomposed(records: Seq<DecompositionView>) -> Seq<Seq<char>> {
    Seq::new(records.len(), |i: int| records[i].kanji)
}

/// The components of a kanji are those of the first record of the KRADFILE
/// that names it.
pub proof fn lemma_components_of(records: Seq<DecompositionView>, kanji: Seq<char>)
    ensures
        components_of(records, kanji) == match first_place(decomposed(records), kanji) {
            Some(p) => records[p].components,
            None => Seq::empty(),
        },
    decreases records.len(),
{
    lemma_first_place(decomposed(records), kanji);
    if records.len() > 0 {
        let rest = records.drop_first();
        lemma_components_of(rest, kanji);
        lemma_first_place(decomposed(rest), kanji);
        assert forall|q: int| 0 <= q < rest.len() implies decomposed(rest)[q] == decomposed(
            records,
        )[q + 1] by {}
        if records.first().kanji == kanji {
            assert(decomposed(records)[0] == kanji);
        } else {
            assert(decomposed(records)[0] != kanji);
            match first_place(decomposed(rest), kanji) {
                Some(p) => {
                    assert(decomposed(records)[p + 1] == kanji);
                    let q = first_place(decomposed(records), kanji).unwrap();
                    if q < p + 1 {
                        assert(decomposed(rest)[q - 1] == kanji);
                    }
                    if q > p + 1 {
                        assert(decomposed(records)[p + 1] == kanji);
                    }
                },
                None => {
                    if first_place(decomposed(records), kanji) is Some {
                        let q = first_place(decomposed(records), kanji).unwrap();
                        assert(decomposed(rest)[q - 1] == kanji);
                    }
                },
            }
        }
    }
}

/// The literals of the entries, entry by entry.
pub open spec fn entry_literals(entries: Seq<KanjiView>) -> Seq<Seq<char>> {
    Seq::new(entries.len(), |j: int| entries[j].kanji)
}

/// The entry for a literal stands at the last place of the literal.
pub proof fn lemma_slot_is_last_place(entries: Seq<KanjiView>, literal: Seq<char>)
    ensures
        slot(entries, literal) == last_place(entry_literals(entries), literal),
    decreases entries.len(),
{
    if entries.len() > 0 {
        assert(entry_literals(entries).drop_last() =~= entry_literals(entries.drop_last()));
        lemma_slot_is_last_place(entries.drop_last(), literal);
    }
}

/// The places of the entries by their literals.
fn places_by_literal(kanji: &Vec<Kanji>) -> (r: Places<String>)
    ensures
        r@ == entry_literals(views(kanji@)),
{
    let mut literals: Vec<String> = Vec::new();
    let mut j: usize = 0;
    while j < kanji.len()
        invariant
            j <= kanji.len(),
            literals.len() == j,
            forall|k: int| 0 <= k < j ==> (#[trigger] literals@[k])@ == kanji@[k].kanji@,
        decreases kanji.len() - j,
    {
        literals.push(kanji[j].kanji.clone());
        j += 1;
    }
    let places = Places::of(&literals);
    assert(keys(literals@) =~= entry_literals(views(kanji@)));
    places
}

/// The places of the records of the KRADFILE by their kanji.
fn places_by_kanji(records: &Vec<Decomposition>) -> (r: Places<String>)
    ensures
        r@ == decomposed(views(records@)),
{
    let mut kanji: Vec<String> = Vec::new();
    let mut j: usize = 0;
    while j < records.len()
        invariant
            j <= records.len(),
            kanji.len() == j,
            forall|k: int| 0 <= k < j ==> (#[trigger] kanji@[k])@ == records@[k].kanji@,
        decreases records.len() - j,
    {
        kanji.push(records[j].kanji.clone());
        j += 1;
    }
    let places = Places::of(&kanji);
    assert(keys(kanji@) =~= decomposed(views(records@)));
    places
}

/// The entry for a literal is an entry that has it, and where there is none,
/// no entry has it.
pub proof fn lemma_slot(entries: Seq<KanjiView>, literal: Seq<char>)
    ensures
        match slot(entries, literal) {
            Some(s) => 0 <= s < entries.len() && entries[s].kanji == literal,
            None => forall|j: int| 0 <= j < entries.len() ==> (#[trigger] entries[j]).kanji != literal,
        },
    decreases entries.len(),
{
    if entries.len() > 0 && entries.last().kanji != literal {
        lemma_slot(entries.drop_last(), literal);
        assert forall|j: int| 0 <= j < entries.len() && slot(entries, literal) is None implies (
        #[trigger] entries[j]).kanji != literal by {
            if j < entries.len() - 1 {
                assert(entries.drop_last()[j].kanji != literal);
            }
        }
    }
}

/// A fault, once found, stays the first fault however many records follow.
pub proof fn lemma_first_fault_stays(
    entries: Seq<KanjiView>,
    records: Seq<CharacterView>,
    n: int,
    m: int,
)
    requires
        0 <= n <= m,
        first_fault(entries, records, n) is Some,
    ensures
        first_fault(entries, records, m) == first_fault(entries, records, n),
    decreases m - n,
{
    if n < m {
        lemma_first_fault_stays(entries, records, n, m - 1);
    }
}

/// Where the first `n` records are free of faults, each of them is.
pub proof fn lemma_no_fault(entries: Seq<KanjiView>, records: Seq<CharacterView>, n: int, i: int)
    requires
        0 <= i < n,
        first_fault(entries, records, n) is None,
    ensures
        fault_at(entries, records, i) is None,
    decreases n,
{
    if i < n - 1 {
        lemma_no_fault(entries, records, n - 1, i);
    }
}

/// The record for an entry is a record whose literal has its entry there, and
/// where there is none, no record has.
pub proof fn lemma_record_for(entries: Seq<KanjiView>, records: Seq<CharacterView>, j: int)
    ensures
        match record_for(entries, records, j) {
            Some(r) => 0 <= r < records.len() && slot(entries, records[r].literal) == Some(j),
            None => forall|r: int|
                0 <= r < records.len() ==> slot(entries, (#[trigger] records[r]).literal) != Some(
                    j,
                ),
        },
    decreases records.len(),
{
    if records.len() > 0 && slot(entries, records.last().literal) != Some(j) {
        lemma_record_for(entries, records.drop_last(), j);
        assert forall|r: int|
            0 <= r < records.len() && record_for(entries, records, j) is None implies slot(
            entries,
            (#[trigger] records[r]).literal,
        ) != Some(j) by {
            if r < records.len() - 1 {
                assert(records.drop_last()[r] == records[r]);
            }
        }
    }
}

/// Looks for the first fault among the records. Where there is none, returns
/// for each record where the entry of its literal stands.
fn check_records(kanji: &Vec<Kanji>, records: &Vec<Character>) -> (r: Result<Vec<usize>, Error>)
    ensures
        match r {
            Ok(slots) => {
                &&& first_fault(views(kanji@), views(records@), records.len() as int) is None
                &&& slots.len() == records.len()
                &&& forall|i: int|
                    0 <= i < records.len() ==> slot(views(kanji@), (#[trigger] views(records@)[i]).literal)
                        == Some(slots[i] as int)
            },
            Err(e) => first_fault(views(kanji@), views(records@), records.len() as int) == Some(e),
        },
{
    let ghost entries = views(kanji@);
    let places = places_by_literal(kanji);
    let mut slots: Vec<usize> = Vec::new();
    let mut taken: Vec<bool> = vec![false; kanji.len()];
    let mut seen: Vec<bool> = vec![false; 0x10000];
    let mut i: usize = 0;
    while i < records.len()
        invariant
            i <= records.len(),
            entries == views(kanji@),
            places@ == entry_literals(entries),
            first_fault(entries, views(records@), i as int) is None,
            slots.len() == i,
            forall|k: int|
                0 <= k < i ==> slot(entries, (#[trigger] views(records@)[k]).literal) == Some(
                    slots[k] as int,
                ),
            taken.len() == kanji.len(),
            seen.len() == 0x10000,
            forall|j: int|
                0 <= j < taken.len() ==> (#[trigger] taken[j] <==> exists|k: int|
                    0 <= k < i && slot(entries, (#[trigger] views(records@)[k]).literal) == Some(j)),
            forall|v: int|
                0 <= v < 0x10000 ==> (#[trigger] seen[v] <==> exists|k: int|
                    0 <= k < i && id_for(entries, (#[trigger] views(records@)[k]).literal) == Some(
                        v as u16,
                    )),
        decreases records.len() - i,
    {
        let literal = records[i].literal.as_str();
        let ghost n = records.len() as int;
        proof {
            lemma_slot(entries, literal@);
            lemma_slot_is_last_place(entries, literal@);
        }
        let s = match places.last(&records[i].literal) {
            Some(s) => s,
            None => {
                proof {
                    lemma_first_fault_stays(entries, views(records@), i + 1, n);
                }
                return Err(Error::NoSkeleton { record: i });
            },
        };
        if literal.unicode_len() != 1 {
            proof {
                lemma_first_fault_stays(entries, views(records@), i + 1, n);
            }
            return Err(Error::MultiCodepoint { record: i });
        }
        proof {
            if taken[s as int] {
                let k = choose|k: int|
                    0 <= k < i && slot(entries, (#[trigger] views(records@)[k]).literal) == Some(s as int);
                lemma_slot(entries, views(records@)[k].literal);
                assert(views(records@)[k].literal == literal@);
            }
            if exists|k: int| 0 <= k < i && (#[trigger] views(records@)[k]).literal == literal@ {
                let k = choose|k: int| 0 <= k < i && (#[trigger] views(records@)[k]).literal == literal@;
                assert(slot(entries, views(records@)[k].literal) == Some(s as int));
                assert(taken[s as int]);
            }
        }
        if taken[s] {
            proof {
                lemma_first_fault_stays(entries, views(records@), i + 1, n);
            }
            return Err(Error::RepeatedKanji { record: i });
        }
        let id = kanji[s].id;
        proof {
            assert(entries[s as int].id == id);
            assert(id_for(entries, literal@) == Some(id));
            if seen[id as int] {
                let k = choose|k: int|
                    0 <= k < i && id_for(entries, (#[trigger] views(records@)[k]).literal) == Some(id);
                assert(id_for(entries, views(records@)[k].literal) == id_for(entries, literal@));
            }
            if exists|k: int|
                0 <= k < i && id_for(entries, (#[trigger] views(records@)[k]).literal) == id_for(
                    entries,
                    literal@,
                ) {
                let k = choose|k: int|
                    0 <= k < i && id_for(entries, (#[trigger] views(records@)[k]).literal) == id_for(
                        entries,
                        literal@,
                    );
                assert(seen[id as int]);
            }
        }
        if seen[id as usize] {
            proof {
                lemma_first_fault_stays(entries, views(records@), i + 1, n);
            }
            return Err(Error::RepeatedId { record: i });
        }
        let ghost taken_before = taken@;
        let ghost seen_before = seen@;
        taken.set(s, true);
        seen.set(id as usize, true);
        slots.push(s);
        proof {
            assert(fault_at(entries, views(records@), i as int) is None);
            assert forall|j: int| 0 <= j < taken.len() implies (#[trigger] taken[j] <==> exists|
                k: int,
            |
                0 <= k < i + 1 && slot(entries, (#[trigger] views(records@)[k]).literal) == Some(j)) by {
                if taken[j] {
                    if j == s {
                        assert(slot(entries, views(records@)[i as int].literal) == Some(j));
                    } else {
                        assert(taken_before[j]);
                        let k = choose|k: int|
                            0 <= k < i && slot(entries, (#[trigger] views(records@)[k]).literal) == Some(j);
                        assert(0 <= k < i + 1 && slot(entries, views(records@)[k].literal) == Some(j));
                    }
                }
                if exists|k: int|
                    0 <= k < i + 1 && slot(entries, (#[trigger] views(records@)[k]).literal) == Some(j) {
                    let k = choose|k: int|
                        0 <= k < i + 1 && slot(entries, (#[trigger] views(records@)[k]).literal) == Some(
                            j,
                        );
                    if k < i {
                        assert(taken_before[j]);
                    }
                }
            }
            assert forall|v: int| 0 <= v < 0x10000 implies (#[trigger] seen[v] <==> exists|k: int|
                0 <= k < i + 1 && id_for(entries, (#[trigger] views(records@)[k]).literal) == Some(
                    v as u16,
                )) by {
                if seen[v] {
                    if v == id {
                        assert(id_for(entries, views(records@)[i as int].literal) == Some(v as u16));
                    } else {
                        assert(seen_before[v]);
                        let k = choose|k: int|
                            0 <= k < i && id_for(entries, (#[trigger] views(records@)[k]).literal) == Some(
                                v as u16,
                            );
                        assert(0 <= k < i + 1 && id_for(entries, views(records@)[k].literal) == Some(
                            v as u16,
                        ));
                    }
                }
                if exists|k: int|
                    0 <= k < i + 1 && id_for(entries, (#[trigger] views(records@)[k]).literal) == Some(
                        v as u16,
                    ) {
                    let k = choose|k: int|
                        0 <= k < i + 1 && id_for(entries, (#[trigger] views(records@)[k]).literal) == Some(
                            v as u16,
                        );
                    if k < i {
                        assert(seen_before[v]);
                    }
                }
            }
        }
        i += 1;
    }
    Ok(slots)
}

/// Fills the kanjifile skeleton with data.
///
/// Each record of the KANJIDIC2 is filled into the entry of its literal: the
/// entry takes the sorted untagged meanings of the record and the components
/// that the KRADFILE lists, and the first meaning as its name where it had
/// none. The header takes the given version and that of the KANJIDIC2. Where
/// a record shows a fault, the first fault is returned and nothing changes.
pub fn fill_skeleton(skeleton: &mut Kanjifile, version: String, kd2: Kanjidic2, kf: Kradfile) -> (r:
    Result<(), Error>)
    ensures
        match r {
            Ok(()) => {
                &&& first_fault(old(skeleton)@.kanji, kd2@.character, kd2@.character.len() as int)
                    is None
                &&& final(skeleton)@ == filled(old(skeleton)@, version@, kd2@, kf@)
            },
            Err(e) => {
                &&& first_fault(old(skeleton)@.kanji, kd2@.character, kd2@.character.len() as int)
                    == Some(e)
                &&& *final(skeleton) == *old(skeleton)
            },
        },
        final(skeleton)@.kanji.len() == old(skeleton)@.kanji.len(),
        forall|j: int|
            #![trigger final(skeleton)@.kanji[j]]
            0 <= j < old(skeleton)@.kanji.len() ==> {
                &&& final(skeleton)@.kanji[j].id == old(skeleton)@.kanji[j].id
                &&& final(skeleton)@.kanji[j].kanji == old(skeleton)@.kanji[j].kanji
                &&& old(skeleton)@.kanji[j].name is Some ==> final(skeleton)@.kanji[j].name
                    == old(skeleton)@.kanji[j].name
            },
        unique(old(skeleton)@.kanji) ==> unique(final(skeleton)@.kanji),
{
    let ghost entries = skeleton@.kanji;
    proof {
        lemma_fill_keeps_identity(entries, kd2@.character, kf@.kanji_to_components);
    }
    let ghost records = kd2@.character;
    let ghost decompositions = kf@.kanji_to_components;
    let slots = match check_records(&skeleton.kanji, &kd2.character) {
        Ok(slots) => slots,
        Err(e) => {
            return Err(e);
        },
    };
    let listed = places_by_kanji(&kf.kanji_to_components);
    let mut i: usize = 0;
    while i < kd2.character.len()
        invariant
            i <= kd2.character.len(),
            records == kd2@.character,
            decompositions == kf@.kanji_to_components,
            listed@ == decomposed(decompositions),
            first_fault(entries, records, records.len() as int) is None,
            slots.len() == records.len(),
            forall|k: int|
                0 <= k < records.len() ==> slot(entries, (#[trigger] records[k]).literal) == Some(
                    slots[k] as int,
                ),
            skeleton.header == old(skeleton).header,
            skeleton.kanji.len() == entries.len(),
            forall|j: int|
                0 <= j < entries.len() ==> #[trigger] views(skeleton.kanji@)[j] == (match record_for(
                    entries,
                    records.take(i as int),
                    j,
                ) {
                    Some(r) => filled_in(entries[j], records[r], decompositions),
                    None => entries[j],
                }),
        decreases kd2.character.len() - i,
    {
        let s = slots[i];
        let ghost before = views(skeleton.kanji@);
        proof {
            lemma_slot(entries, records[i as int].literal);
            lemma_record_for(entries, records.take(i as int), s as int);
            lemma_no_fault(entries, records, records.len() as int, i as int);
            if record_for(entries, records.take(i as int), s as int) is Some {
                let r = record_for(entries, records.take(i as int), s as int).unwrap();
                assert(records.take(i as int)[r] == records[r]);
                lemma_slot(entries, records[r].literal);
                assert(records[r].literal == records[i as int].literal);
            }
            assert(before[s as int] == entries[s as int]);
        }
        let components = match listed.first(&kd2.character[i].literal) {
            Some(p) => {
                proof {
                    lemma_first_place(decomposed(decompositions), records[i as int].literal);
                }
                clone_texts(&kf.kanji_to_components[p].components)
            },
            None => Vec::new(),
        };
        proof {
            lemma_components_of(decompositions, records[i as int].literal);
            if listed@.len() == 0 || first_place(decomposed(decompositions), records[i as int].literal) is None {
                assert(views(components@) =~= Seq::<Seq<char>>::empty());
            }
        }
        fill_with(&kd2.character[i], &mut skeleton.kanji[s], components);
        proof {
            let now = views(skeleton.kanji@);
            assert(records.take(i + 1).drop_last() =~= records.take(i as int));
            assert forall|j: int| 0 <= j < entries.len() implies #[trigger] now[j] == (
            match record_for(entries, records.take(i + 1), j) {
                Some(r) => filled_in(entries[j], records[r], decompositions),
                None => entries[j],
            }) by {
                if j != s {
                    assert(now[j] == before[j]);
                }
            }
        }
        i += 1;
    }
    skeleton.header.version = version;
    skeleton.header.kanjidic2_version = kd2.header.file_version;
    proof {
        assert(records.take(i as int) =~= records);
        assert(skeleton@.kanji =~= filled_entries(entries, records, decompositions));
    }
    Ok(())
}

/// Filling changes neither the number of entries nor the id, the literal or
/// the similar kanji of any entry, and it leaves every name that an entry had.
pub proof fn lemma_fill_keeps_identity(
    entries: Seq<KanjiView>,
    records: Seq<CharacterView>,
    decompositions: Seq<DecompositionView>,
)
    ensures
        filled_entries(entries, records, decompositions).len() == entries.len(),
        forall|j: int|
            #![trigger filled_entries(entries, records, decompositions)[j]]
            0 <= j < entries.len() ==> {
                let after = filled_entries(entries, records, decompositions)[j];
                &&& after.id == entries[j].id
                &&& after.kanji == entries[j].kanji
                &&& after.similar == entries[j].similar
                &&& entries[j].name is Some ==> after.name == entries[j].name
            },
        unique(entries) ==> unique(filled_entries(entries, records, decompositions)),
{
    let after = filled_entries(entries, records, decompositions);
    if unique(entries) {
        assert forall|i: int, j: int| 0 <= i < j < after.len() implies (#[trigger] after[i]).id != (
        #[trigger] after[j]).id && after[i].kanji != after[j].kanji by {
            assert(entries[i].id != entries[j].id);
        }
    }
}

proof fn lemma_slot_by_literals(a: Seq<KanjiView>, b: Seq<KanjiView>, literal: Seq<char>)
    requires
        a.len() == b.len(),
        forall|j: int| 0 <= j < a.len() ==> (#[trigger] a[j]).kanji == b[j].kanji,
    ensures
        slot(a, literal) == slot(b, literal),
    decreases a.len(),
{
    if a.len() > 0 {
        assert(a.last().kanji == b.last().kanji);
        assert forall|j: int| 0 <= j < a.drop_last().len() implies (#[trigger] a.drop_last()[j]).kanji
            == b.drop_last()[j].kanji by {
            assert(a[j].kanji == b[j].kanji);
        }
        lemma_slot_by_literals(a.drop_last(), b.drop_last(), literal);
    }
}

proof fn lemma_record_for_by_literals(
    a: Seq<KanjiView>,
    b: Seq<KanjiView>,
    records: Seq<CharacterView>,
    j: int,
)
    requires
        a.len() == b.len(),
        forall|j: int| 0 <= j < a.len() ==> (#[trigger] a[j]).kanji == b[j].kanji,
    ensures
        record_for(a, records, j) == record_for(b, records, j),
    decreases records.len(),
{
    if records.len() > 0 {
        lemma_slot_by_literals(a, b, records.last().literal);
        lemma_record_for_by_literals(a, b, records.drop_last(), j);
    }
}

proof fn lemma_first_fault_by_identity(
    a: Seq<KanjiView>,
    b: Seq<KanjiView>,
    records: Seq<CharacterView>,
    n: int,
)
    requires
        a.len() == b.len(),
        forall|j: int|
            0 <= j < a.len() ==> (#[trigger] a[j]).kanji == b[j].kanji && a[j].id == b[j].id,
        n <= records.len(),
    ensures
        first_fault(a, records, n) == first_fault(b, records, n),
    decreases n,
{
    if n > 0 {
        lemma_first_fault_by_identity(a, b, records, n - 1);
        let i = n - 1;
        assert forall|k: int| 0 <= k <= i implies slot(a, (#[trigger] records[k]).literal) == slot(
            b,
            records[k].literal,
        ) && id_for(a, records[k].literal) == id_for(b, records[k].literal) by {
            lemma_slot_by_literals(a, b, records[k].literal);
            lemma_slot(a, records[k].literal);
        }
        let literal = records[i].literal;
        if exists|k: int|
            0 <= k < i && id_for(a, (#[trigger] records[k]).literal) == id_for(a, literal) {
            let k = choose|k: int|
                0 <= k < i && id_for(a, (#[trigger] records[k]).literal) == id_for(a, literal);
            assert(id_for(b, records[k].literal) == id_for(b, literal));
        }
        if exists|k: int|
            0 <= k < i && id_for(b, (#[trigger] records[k]).literal) == id_for(b, literal) {
            let k = choose|k: int|
                0 <= k < i && id_for(b, (#[trigger] records[k]).literal) == id_for(b, literal);
            assert(id_for(a, records[k].literal) == id_for(a, literal));
        }
    }
}

/// Filling a kanjifile a second time from the same KANJIDIC2 and KRADFILE,
/// under the same version, meets the same faults if any and otherwise leaves
/// the kanjifile as the first filling made it.
pub proof fn lemma_fill_idempotent(
    skeleton: KanjifileView,
    version: Seq<char>,
    kd2: Kanjidic2View,
    kf: KradfileView,
)
    ensures
        first_fault(
            filled(skeleton, version, kd2, kf).kanji,
            kd2.character,
            kd2.character.len() as int,
        ) == first_fault(skeleton.kanji, kd2.character, kd2.character.len() as int),
        filled(filled(skeleton, version, kd2, kf), version, kd2, kf) == filled(
            skeleton,
            version,
            kd2,
            kf,
        ),
{
    let records = kd2.character;
    let decompositions = kf.kanji_to_components;
    let once = filled_entries(skeleton.kanji, records, decompositions);
    let twice = filled_entries(once, records, decompositions);
    lemma_fill_keeps_identity(skeleton.kanji, records, decompositions);
    assert forall|j: int| 0 <= j < once.len() implies (#[trigger] once[j]).kanji
        == skeleton.kanji[j].kanji && once[j].id == skeleton.kanji[j].id by {}
    lemma_first_fault_by_identity(once, skeleton.kanji, records, records.len() as int);
    assert forall|j: int| 0 <= j < once.len() implies twice[j] == once[j] by {
        lemma_record_for_by_literals(once, skeleton.kanji, records, j);
    }
    assert(twice =~= once);
}

} // verus!
