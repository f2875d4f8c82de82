//! Creates and updates the skeleton of the wordfile: which words there are,
//! each under a permanent id and with its written forms.

use crate::input::jmdict::{EntryView, JMdict, KEleView, REle, REleView};
use crate::ordered::{
    find_sorted, keys, lemma_push_set, lemma_strictly_sorted_len, lemma_strictly_sorted_unique,
    order_of, sorted, sorted_set, strictly_sorted, Ordered,
};
use crate::wordfile::{
    lemma_max_id_bounds, max_id, unique_ids, Header, Word, WordView, Wordfile, WordfileView,
};
use vstd::relations::sorted_by;
use crate::text::{
    contains_text, decimal_u32, fold, folded, lemma_text_le_antisymmetric,
    lemma_text_le_connected, lemma_text_le_reflexive, lemma_text_le_transitive, parse_u32, str_eq,
    str_le, text_le, views,
};
use vstd::prelude::*;

verus! {

/// Why a skeleton could not be brought up to date.
#[derive(Debug, Clone, Copy, PartialEq, Eq)]
pub enum Error {
    /// The sequence number of the entry at this position is no number.
    InvalidId { entry: usize },
    /// The new words outnumber the ids that are left.
    OutOfIds,
}

/// A written form of a JMdict entry as the dictionary spells it, under the
/// sequence number of the entry.
#[derive(Debug, Clone, PartialEq, Eq)]
pub struct JMdictWordVerbatim {
    pub id: u32,
    pub written_form: String,
}

/// What a word of the wordfile is matched by: the sequence number of its
/// JMdict entry and the folding of one of its written forms, which is
/// katakana where the written form holds kana.
#[derive(Debug, Clone, PartialEq, Eq, Hash)]
pub struct JMdictWordKatakana {
    pub jmdict_id: u32,
    pub written_form_katakana: String,
}

impl View for JMdictWordVerbatim {
    type V = (u32, Seq<char>);

    open spec fn view(&self) -> (u32, Seq<char>) {
        (self.id, self.written_form@)
    }
}

impl View for JMdictWordKatakana {
    type V = (Seq<char>, u32);

    open spec fn view(&self) -> (Seq<char>, u32) {
        (self.written_form_katakana@, self.jmdict_id)
    }
}

/// The key under which a written form of an entry is matched.
pub open spec fn key_of(row: (u32, Seq<char>)) -> (Seq<char>, u32) {
    (folded(row.1), row.0)
}

/// The order of keys: by the folded written form, then by the sequence number.
pub open spec fn key_le(a: (Seq<char>, u32), b: (Seq<char>, u32)) -> bool {
    if a.0 == b.0 {
        a.1 <= b.1
    } else {
        text_le(a.0, b.0)
    }
}

impl JMdictWordKatakana {
    /// The key of a written form.
    pub fn from_verbatim(key: &JMdictWordVerbatim) -> (r: Self)
        ensures
            r@ == key_of(key@),
    {
        let written_form_katakana = fold(key.written_form.as_str());
        Self { jmdict_id: key.id, written_form_katakana }
    }
}

/// Keys are ranked by the folded written form, then by the sequence number.
impl Ordered for JMdictWordKatakana {
    type K = (Seq<char>, u32);

    open spec fn key(&self) -> (Seq<char>, u32) {
        self@
    }

    open spec fn le(a: (Seq<char>, u32), b: (Seq<char>, u32)) -> bool {
        key_le(a, b)
    }

    proof fn lemma_le_reflexive(a: (Seq<char>, u32)) {
    }

    proof fn lemma_le_antisymmetric(a: (Seq<char>, u32), b: (Seq<char>, u32)) {
        if a.0 != b.0 {
            lemma_text_le_antisymmetric(a.0, b.0);
        }
    }

    proof fn lemma_le_transitive(a: (Seq<char>, u32), b: (Seq<char>, u32), c: (Seq<char>, u32)) {
        if a.0 != b.0 && b.0 != c.0 {
            lemma_text_le_transitive(a.0, b.0, c.0);
            if a.0 == c.0 {
                lemma_text_le_antisymmetric(a.0, b.0);
            }
        }
    }

    proof fn lemma_le_connected(a: (Seq<char>, u32), b: (Seq<char>, u32)) {
        lemma_text_le_connected(a.0, b.0);
    }

    fn precedes(&self, other: &Self) -> (r: bool) {
        if str_eq(self.written_form_katakana.as_str(), other.written_form_katakana.as_str()) {
            self.jmdict_id <= other.jmdict_id
        } else {
            str_le(self.written_form_katakana.as_str(), other.written_form_katakana.as_str())
        }
    }

    fn duplicate(&self) -> (r: Self) {
        Self {
            jmdict_id: self.jmdict_id,
            written_form_katakana: self.written_form_katakana.clone(),
        }
    }
}

/// Whether a reading applies to a written form: it is restricted to none, or
/// to this one among others.
pub open spec fn reading_applies(reading: REleView, keb: Seq<char>) -> bool {
    reading.re_restr.len() == 0 || reading.re_restr.contains(keb)
}

/// A written form, once for each of the readings that apply to it.
pub open spec fn form_per_reading(keb: Seq<char>, readings: Seq<REleView>) -> Seq<Seq<char>>
    decreases readings.len(),
{
    if readings.len() == 0 {
        Seq::empty()
    } else if reading_applies(readings.last(), keb) {
        form_per_reading(keb, readings.drop_last()).push(keb)
    } else {
        form_per_reading(keb, readings.drop_last())
    }
}

/// The written forms of a list of kanji forms, form after form, each once for
/// each of the readings that apply to it.
pub open spec fn forms_of_kebs(kebs: Seq<KEleView>, readings: Seq<REleView>) -> Seq<Seq<char>>
    decreases kebs.len(),
{
    if kebs.len() == 0 {
        Seq::empty()
    } else {
        forms_of_kebs(kebs.drop_last(), readings) + form_per_reading(kebs.last().keb, readings)
    }
}

/// The written forms under which an entry is listed: its readings where it
/// has no kanji form, else its kanji forms, each once for each reading that
/// applies to it.
pub open spec fn entry_forms(entry: EntryView) -> Seq<Seq<char>> {
    if entry.k_ele.len() == 0 {
        Seq::new(entry.r_ele.len(), |r: int| entry.r_ele[r].reb)
    } else {
        forms_of_kebs(entry.k_ele, entry.r_ele)
    }
}

/// The rows of one entry: each of its written forms under its sequence number.
pub open spec fn entry_rows(entry: EntryView) -> Seq<(u32, Seq<char>)> {
    tagged(decimal_u32(entry.ent_seq).unwrap(), entry_forms(entry))
}

/// The rows of a dictionary: those of its entries, entry after entry.
pub open spec fn rows(entries: Seq<EntryView>) -> Seq<(u32, Seq<char>)>
    decreases entries.len(),
{
    if entries.len() == 0 {
        Seq::empty()
    } else {
        rows(entries.drop_last()) + entry_rows(entries.last())
    }
}

/// The position of the first entry whose sequence number is no number.
pub open spec fn first_invalid(entries: Seq<EntryView>) -> Option<int>
    decreases entries.len(),
{
    if entries.len() == 0 {
        None
    } else {
        match first_invalid(entries.drop_last()) {
            Some(i) => Some(i),
            None => if decimal_u32(entries.last().ent_seq) is None {
                Some(entries.len() - 1)
            } else {
                None
            },
        }
    }
}

/// Turns one written form of an entry into a row. Where the entry has no
/// kanji form, the reading is the written form.
pub fn process_entry(id: u32, keb: Option<String>, reb: String) -> (r: JMdictWordVerbatim)
    ensures
        r@ == (
            id,
            match keb {
                Some(k) => k@,
                None => reb@,
            },
        ),
{
    let written_form = match keb {
        Some(k) => k,
        None => reb,
    };
    JMdictWordVerbatim { id, written_form }
}

/// Turns the entries of the JMdict into rows, one for each written form and
/// each reading that applies to it.
pub fn process_jmdict(jmdict: &JMdict) -> (r: Result<Vec<JMdictWordVerbatim>, Error>)
    ensures
        match r {
            Ok(found) => first_invalid(jmdict@.entry) is None && views(found@) == rows(
                jmdict@.entry,
            ),
            Err(Error::InvalidId { entry }) => first_invalid(jmdict@.entry) == Some(entry as int),
            Err(Error::OutOfIds) => false,
        },
{
    let entries = &jmdict.entry;
    let mut out: Vec<JMdictWordVerbatim> = Vec::new();
    let mut i: usize = 0;
    assert(views(out@) =~= rows(views(entries@).take(0)));
    while i < entries.len()
        invariant
            i <= entries.len(),
            views(entries@) == jmdict@.entry,
            first_invalid(views(entries@).take(i as int)) is None,
            views(out@) == rows(views(entries@).take(i as int)),
        decreases entries.len() - i,
    {
        let entry = &entries[i];
        let ghost before = views(out@);
        proof {
            assert(views(entries@).take(i + 1).drop_last() =~= views(entries@).take(i as int));
        }
        let id = match parse_u32(entry.ent_seq.as_str()) {
            Some(id) => id,
            None => {
                proof {
                    assert(views(entries@).take(i + 1).last() == views(entries@)[i as int]);
                    assert(first_invalid(views(entries@).take(i + 1)) == Some(i as int));
                    lemma_first_invalid_stays(views(entries@), i + 1, entries.len() as int);
                    assert(views(entries@).take(entries.len() as int) =~= views(entries@));
                }
                return Err(Error::InvalidId { entry: i });
            },
        };
        if entry.k_ele.len() == 0 {
            let mut r: usize = 0;
            while r < entry.r_ele.len()
                invariant
                    r <= entry.r_ele.len(),
                    entry@.k_ele.len() == 0,
                    views(out@) == before + Seq::new(r as nat, |k: int| (id, entry@.r_ele[k].reb)),
                decreases entry.r_ele.len() - r,
            {
                let ghost prev = views(out@);
                let row = process_entry(id, None, entry.r_ele[r].reb.clone());
                out.push(row);
                assert(views(out@) =~= prev.push(row@));
                assert(views(out@) =~= before + Seq::new(
                    (r + 1) as nat,
                    |k: int| (id, entry@.r_ele[k].reb),
                ));
                r += 1;
            }
            assert(views(out@) =~= before + entry_rows(entry@));
        } else {
            let mut k: usize = 0;
            assert(forms_of_kebs(entry@.k_ele.take(0), entry@.r_ele) =~= Seq::<Seq<char>>::empty());
            assert(views(out@) =~= before + tagged(
                id,
                forms_of_kebs(entry@.k_ele.take(0), entry@.r_ele),
            ));
            while k < entry.k_ele.len()
                invariant
                    k <= entry.k_ele.len(),
                    views(out@) == before + tagged(
                        id,
                        forms_of_kebs(entry@.k_ele.take(k as int), entry@.r_ele),
                    ),
                decreases entry.k_ele.len() - k,
            {
                let keb = &entry.k_ele[k].keb;
                let ghost done = forms_of_kebs(entry@.k_ele.take(k as int), entry@.r_ele);
                let mut r: usize = 0;
                proof {
                    assert(entry@.k_ele.take(k + 1).drop_last() =~= entry@.k_ele.take(k as int));
                    assert(form_per_reading(keb@, entry@.r_ele.take(0)) =~= Seq::<
                        Seq<char>,
                    >::empty());
                    assert(views(out@) =~= before + tagged(
                        id,
                        done + form_per_reading(keb@, entry@.r_ele.take(0)),
                    ));
                }
                while r < entry.r_ele.len()
                    invariant
                        r <= entry.r_ele.len(),
                        views(out@) == before + tagged(
                            id,
                            done + form_per_reading(keb@, entry@.r_ele.take(r as int)),
                        ),
                    decreases entry.r_ele.len() - r,
                {
                    let rele = &entry.r_ele[r];
                    let ghost prev = views(out@);
                    let ghost some = form_per_reading(keb@, entry@.r_ele.take(r as int));
                    proof {
                        assert(entry@.r_ele.take(r + 1).drop_last() =~= entry@.r_ele.take(r as int));
                    }
                    if rele.re_restr.len() == 0 || contains_text(&rele.re_restr, keb.as_str()) {
                        let row = process_entry(id, Some(keb.clone()), rele.reb.clone());
                        out.push(row);
                        proof {
                            assert(views(out@) =~= prev.push((id, keb@)));
                            assert(tagged(id, done + some.push(keb@)) =~= tagged(
                                id,
                                done + some,
                            ).push((id, keb@)));
                            assert(views(out@) =~= before + tagged(id, done + some.push(keb@)));
                        }
                    }
                    r += 1;
                }
                assert(entry@.r_ele.take(r as int) =~= entry@.r_ele);
                k += 1;
            }
            assert(entry@.k_ele.take(k as int) =~= entry@.k_ele);
            assert(views(out@) =~= before + entry_rows(entry@));
        }
        i += 1;
    }
    assert(views(entries@).take(i as int) =~= views(entries@));
    Ok(out)
}

/// Written forms as rows under one sequence number.
pub open spec fn tagged(id: u32, forms: Seq<Seq<char>>) -> Seq<(u32, Seq<char>)> {
    Seq::new(forms.len(), |i: int| (id, forms[i]))
}

/// An entry whose sequence number is no number stays the first such however
/// many entries follow.
pub proof fn lemma_first_invalid_stays(entries: Seq<EntryView>, n: int, m: int)
    requires
        0 <= n <= m <= entries.len(),
        first_invalid(entries.take(n)) is Some,
    ensures
        first_invalid(entries.take(m)) == first_invalid(entries.take(n)),
    decreases m - n,
{
    if n < m {
        assert(entries.take(m).drop_last() =~= entries.take(m - 1));
        lemma_first_invalid_stays(entries, n, m - 1);
    }
}

/// A written form under the key it is matched by.
pub struct Candidate {
    pub key: JMdictWordKatakana,
    pub written_form: String,
}

impl View for Candidate {
    type V = ((Seq<char>, u32), Seq<char>);

    open spec fn view(&self) -> ((Seq<char>, u32), Seq<char>) {
        (self.key@, self.written_form@)
    }
}

/// The order of candidates: by the key, then by the written form.
pub open spec fn candidate_le(
    a: ((Seq<char>, u32), Seq<char>),
    b: ((Seq<char>, u32), Seq<char>),
) -> bool {
    if a.0 == b.0 {
        text_le(a.1, b.1)
    } else {
        key_le(a.0, b.0)
    }
}

/// Candidates are ranked by the key, then by the written form.
impl Ordered for Candidate {
    type K = ((Seq<char>, u32), Seq<char>);

    open spec fn key(&self) -> ((Seq<char>, u32), Seq<char>) {
        self@
    }

    open spec fn le(a: ((Seq<char>, u32), Seq<char>), b: ((Seq<char>, u32), Seq<char>)) -> bool {
        candidate_le(a, b)
    }

    proof fn lemma_le_reflexive(a: ((Seq<char>, u32), Seq<char>)) {
        lemma_text_le_reflexive(a.1);
    }

    proof fn lemma_le_antisymmetric(
        a: ((Seq<char>, u32), Seq<char>),
        b: ((Seq<char>, u32), Seq<char>),
    ) {
        if a.0 == b.0 {
            lemma_text_le_antisymmetric(a.1, b.1);
        } else {
            JMdictWordKatakana::lemma_le_antisymmetric(a.0, b.0);
        }
    }

    proof fn lemma_le_transitive(
        a: ((Seq<char>, u32), Seq<char>),
        b: ((Seq<char>, u32), Seq<char>),
        c: ((Seq<char>, u32), Seq<char>),
    ) {
        if a.0 == b.0 && b.0 == c.0 {
            lemma_text_le_transitive(a.1, b.1, c.1);
        } else if a.0 != b.0 && b.0 != c.0 {
            JMdictWordKatakana::lemma_le_transitive(a.0, b.0, c.0);
            if a.0 == c.0 {
                JMdictWordKatakana::lemma_le_antisymmetric(a.0, b.0);
            }
        }
    }

    proof fn lemma_le_connected(
        a: ((Seq<char>, u32), Seq<char>),
        b: ((Seq<char>, u32), Seq<char>),
    ) {
        lemma_text_le_connected(a.1, b.1);
        JMdictWordKatakana::lemma_le_connected(a.0, b.0);
    }

    fn precedes(&self, other: &Self) -> (r: bool) {
        if self.key.jmdict_id == other.key.jmdict_id && str_eq(
            self.key.written_form_katakana.as_str(),
            other.key.written_form_katakana.as_str(),
        ) {
            str_le(self.written_form.as_str(), other.written_form.as_str())
        } else {
            self.key.precedes(&other.key)
        }
    }

    fn duplicate(&self) -> (r: Self) {
        Self { key: self.key.duplicate(), written_form: self.written_form.clone() }
    }
}

/// Candidates in groups: each run of candidates with one key becomes one
/// group, which holds the key and the written forms of the run in order.
pub open spec fn grouped(t: Seq<((Seq<char>, u32), Seq<char>)>) -> Seq<
    ((Seq<char>, u32), Seq<Seq<char>>),
>
    decreases t.len(),
{
    if t.len() == 0 {
        Seq::empty()
    } else {
        let rest = grouped(t.drop_last());
        let x = t.last();
        if rest.len() > 0 && rest.last().0 == x.0 {
            rest.drop_last().push((x.0, rest.last().1.push(x.1)))
        } else {
            rest.push((x.0, seq![x.1]))
        }
    }
}

/// The last group holds the last candidate.
pub proof fn lemma_grouped_last(t: Seq<((Seq<char>, u32), Seq<char>)>)
    requires
        t.len() > 0,
    ensures
        grouped(t).len() > 0,
        grouped(t).last().0 == t.last().0,
        grouped(t).last().1.len() > 0,
        grouped(t).last().1.last() == t.last().1,
        grouped(t).len() >= grouped(t.drop_last()).len(),
{
}

/// What the groups of strictly ascending candidates hold: each group at least
/// one written form; the keys of the groups in strictly ascending order; the
/// written forms of each group in strictly ascending order; and in the group
/// of a key exactly the written forms that are candidates under that key.
pub proof fn lemma_grouped(t: Seq<((Seq<char>, u32), Seq<char>)>)
    requires
        crate::ordered::strictly_sorted::<Candidate>(t),
    ensures
        forall|g: int| 0 <= g < grouped(t).len() ==> (#[trigger] grouped(t)[g]).1.len() > 0,
        forall|g: int, h: int|
            0 <= g < h < grouped(t).len() ==> key_le(
                (#[trigger] grouped(t)[g]).0,
                (#[trigger] grouped(t)[h]).0,
            ) && grouped(t)[g].0 != grouped(t)[h].0,
        forall|g: int|
            0 <= g < grouped(t).len() ==> crate::ordered::strictly_sorted::<String>(
                (#[trigger] grouped(t)[g]).1,
            ),
        forall|g: int, j: int|
            0 <= g < grouped(t).len() && 0 <= j < grouped(t)[g].1.len() ==> t.contains(
                (grouped(t)[g].0, #[trigger] grouped(t)[g].1[j]),
            ),
        forall|i: int|
            #![trigger t[i]]
            0 <= i < t.len() ==> exists|g: int|
                0 <= g < grouped(t).len() && (#[trigger] grouped(t)[g]).0 == t[i].0 && grouped(
                    t,
                )[g].1.contains(t[i].1),
    decreases t.len(),
{
    if t.len() > 0 {
        let u = t.drop_last();
        let x = t.last();
        let rest = grouped(u);
        let all = grouped(t);
        assert forall|i: int, j: int| 0 <= i < j < u.len() implies candidate_le(
            #[trigger] u[i],
            #[trigger] u[j],
        ) && u[i] != u[j] by {
            assert(candidate_le(t[i], t[j]) && t[i] != t[j]);
        }
        lemma_grouped(u);
        if u.len() > 0 {
            lemma_grouped_last(u);
            assert(candidate_le(t[u.len() - 1], t[t.len() - 1]) && t[u.len() - 1] != t[t.len()
                - 1]);
            assert(u.last() == t[u.len() - 1]);
        }
        let same = rest.len() > 0 && rest.last().0 == x.0;
        let n = all.len() as int;
        assert(n > 0);
        // every earlier group is a group of the rest, but for the last one where it grew
        assert forall|g: int| 0 <= g < n - 1 implies #[trigger] all[g] == rest[g] by {}
        assert(all[n - 1].0 == x.0);
        if same {
            assert(all[n - 1].1 == rest.last().1.push(x.1));
        } else {
            assert(all[n - 1].1 == seq![x.1]);
        }
        // written forms within each group
        assert forall|g: int| 0 <= g < n implies crate::ordered::strictly_sorted::<String>(
            (#[trigger] all[g]).1,
        ) by {
            if g == n - 1 && same {
                let old_forms = rest.last().1;
                let forms = all[g].1;
                assert(crate::ordered::strictly_sorted::<String>(old_forms));
                let last = old_forms.last();
                assert(last == u.last().1);
                assert(text_le(last, x.1) && last != x.1);
                assert forall|a: int, b: int| 0 <= a < b < forms.len() implies text_le(
                    #[trigger] forms[a],
                    #[trigger] forms[b],
                ) && forms[a] != forms[b] by {
                    if b < old_forms.len() {
                        assert(text_le(old_forms[a], old_forms[b]) && old_forms[a] != old_forms[b]);
                    } else if a < old_forms.len() - 1 {
                        assert(text_le(old_forms[a], old_forms[old_forms.len() - 1])
                            && old_forms[a] != old_forms[old_forms.len() - 1]);
                        lemma_text_le_transitive(old_forms[a], last, x.1);
                        if old_forms[a] == x.1 {
                            lemma_text_le_antisymmetric(last, x.1);
                        }
                    }
                }
            } else if g == n - 1 {
                assert(all[g].1.len() == 1);
            } else {
                assert(all[g] == rest[g]);
            }
        }
        // keys of the groups
        assert forall|g: int, h: int| 0 <= g < h < n implies key_le(
            (#[trigger] all[g]).0,
            (#[trigger] all[h]).0,
        ) && all[g].0 != all[h].0 by {
            if h < n - 1 {
                assert(all[g] == rest[g] && all[h] == rest[h]);
            } else if same {
                assert(all[g] == rest[g]);
                assert(key_le(rest[g].0, rest[n - 1].0) && rest[g].0 != rest[n - 1].0);
            } else {
                assert(all[g] == rest[g]);
                let top = rest.last().0;
                assert(top == u.last().0);
                assert(key_le(top, x.0) && top != x.0);
                if g < rest.len() - 1 {
                    assert(key_le(rest[g].0, rest[rest.len() - 1].0) && rest[g].0 != rest[rest.len()
                        - 1].0);
                    JMdictWordKatakana::lemma_le_transitive(rest[g].0, top, x.0);
                    if rest[g].0 == x.0 {
                        JMdictWordKatakana::lemma_le_antisymmetric(top, x.0);
                    }
                }
            }
        }
        // each written form of a group is a candidate
        assert forall|g: int, j: int| 0 <= g < n && 0 <= j < all[g].1.len() implies t.contains(
            (all[g].0, #[trigger] all[g].1[j]),
        ) by {
            if g == n - 1 && j == all[g].1.len() - 1 {
                assert(t[t.len() - 1] == (all[g].0, all[g].1[j]));
            } else {
                let gg = g;
                assert(if g == n - 1 {
                    rest.last().0 == all[g].0 && rest.last().1[j] == all[g].1[j]
                } else {
                    rest[g] == all[g]
                });
                assert(u.contains((rest[gg].0, rest[gg].1[j])));
                let i = choose|i: int| 0 <= i < u.len() && u[i] == (rest[gg].0, rest[gg].1[j]);
                assert(t[i] == u[i]);
            }
        }
        // each candidate is in the group of its key
        assert forall|i: int| #![trigger t[i]] 0 <= i < t.len() implies exists|g: int|
            0 <= g < n && (#[trigger] all[g]).0 == t[i].0 && all[g].1.contains(t[i].1) by {
            if i == t.len() - 1 {
                assert(all[n - 1].1[all[n - 1].1.len() - 1] == x.1);
                assert(all[n - 1].0 == t[i].0 && all[n - 1].1.contains(t[i].1));
            } else {
                assert(u[i] == t[i]);
                let g = choose|g: int|
                    0 <= g < rest.len() && (#[trigger] rest[g]).0 == u[i].0 && rest[g].1.contains(
                        u[i].1,
                    );
                let j = choose|j: int| 0 <= j < rest[g].1.len() && rest[g].1[j] == u[i].1;
                if same && g == rest.len() - 1 {
                    assert(all[g].1[j] == u[i].1);
                    assert(all[g].0 == t[i].0 && all[g].1.contains(t[i].1));
                } else {
                    assert(all[g] == rest[g]);
                    assert(all[g].0 == t[i].0 && all[g].1.contains(t[i].1));
                }
            }
        }
        assert forall|g: int| 0 <= g < n implies (#[trigger] all[g]).1.len() > 0 by {
            if g < n - 1 {
                assert(all[g] == rest[g]);
            }
        }
    }
}

/// Whether one of the readings applies to a written form.
pub open spec fn is_read(keb: Seq<char>, readings: Seq<REleView>) -> bool {
    exists|r: int| 0 <= r < readings.len() && reading_applies(#[trigger] readings[r], keb)
}

/// The kanji forms of an entry to which none of its readings applies, in the
/// order of the entry. They have no row.
pub open spec fn unread_forms_of(kebs: Seq<KEleView>, readings: Seq<REleView>) -> Seq<Seq<char>>
    decreases kebs.len(),
{
    if kebs.len() == 0 {
        Seq::empty()
    } else if is_read(kebs.last().keb, readings) {
        unread_forms_of(kebs.drop_last(), readings)
    } else {
        unread_forms_of(kebs.drop_last(), readings).push(kebs.last().keb)
    }
}

/// The kanji forms of a dictionary to which no reading of their entry
/// applies, entry after entry.
pub open spec fn unread_forms_in(entries: Seq<EntryView>) -> Seq<Seq<char>>
    decreases entries.len(),
{
    if entries.len() == 0 {
        Seq::empty()
    } else {
        unread_forms_in(entries.drop_last()) + unread_forms_of(
            entries.last().k_ele,
            entries.last().r_ele,
        )
    }
}

/// Whether one of the readings applies to a written form.
fn has_reading(keb: &str, readings: &Vec<REle>) -> (r: bool)
    ensures
        r == is_read(keb@, views(readings@)),
{
    let mut i: usize = 0;
    while i < readings.len()
        invariant
            i <= readings.len(),
            forall|k: int| 0 <= k < i ==> !reading_applies(#[trigger] views(readings@)[k], keb@),
        decreases readings.len() - i,
    {
        if readings[i].re_restr.len() == 0 || contains_text(&readings[i].re_restr, keb) {
            assert(reading_applies(views(readings@)[i as int], keb@));
            return true;
        }
        i += 1;
    }
    false
}

/// The kanji forms of the JMdict that no reading of their entry applies to.
/// The dictionary is at fault in them; they are left out of the wordfile.
pub fn unread_forms(jmdict: &JMdict) -> (r: Vec<String>)
    ensures
        views(r@) == unread_forms_in(jmdict@.entry),
{
    let entries = &jmdict.entry;
    let mut out: Vec<String> = Vec::new();
    let mut i: usize = 0;
    assert(views(out@) =~= unread_forms_in(views(entries@).take(0)));
    while i < entries.len()
        invariant
            i <= entries.len(),
            views(entries@) == jmdict@.entry,
            views(out@) == unread_forms_in(views(entries@).take(i as int)),
        decreases entries.len() - i,
    {
        let entry = &entries[i];
        let ghost before = views(out@);
        let mut k: usize = 0;
        proof {
            assert(views(entries@).take(i + 1).drop_last() =~= views(entries@).take(i as int));
            assert(views(entries@).take(i + 1).last() == entry@);
            assert(views(out@) =~= before + unread_forms_of(entry@.k_ele.take(0), entry@.r_ele));
        }
        while k < entry.k_ele.len()
            invariant
                k <= entry.k_ele.len(),
                views(out@) == before + unread_forms_of(entry@.k_ele.take(k as int), entry@.r_ele),
            decreases entry.k_ele.len() - k,
        {
            let ghost prev = views(out@);
            let keb = &entry.k_ele[k].keb;
            proof {
                assert(entry@.k_ele.take(k + 1).drop_last() =~= entry@.k_ele.take(k as int));
                assert(entry@.k_ele.take(k + 1).last() == entry@.k_ele[k as int]);
            }
            if !has_reading(keb.as_str(), &entry.r_ele) {
                out.push(keb.clone());
                proof {
                    assert(views(out@) =~= prev.push(keb@));
                    assert(views(out@) =~= before + unread_forms_of(
                        entry@.k_ele.take(k + 1),
                        entry@.r_ele,
                    ));
                }
            }
            k += 1;
        }
        assert(entry@.k_ele.take(k as int) =~= entry@.k_ele);
        i += 1;
    }
    assert(views(entries@).take(i as int) =~= views(entries@));
    out
}

/// The key that a word of the wordfile is matched by: the sequence number of
/// its JMdict entry and the first of its written forms, folded. A word
/// without either has none.
pub open spec fn word_key(word: WordView) -> Option<(Seq<char>, u32)> {
    match word.jmdict_id {
        Some(id) => if word.written_forms.len() > 0 {
            Some((folded(word.written_forms[0]), id))
        } else {
            None
        },
        None => None,
    }
}

/// The keys of the words of a wordfile.
pub open spec fn known_keys(words: Seq<WordView>) -> Set<(Seq<char>, u32)> {
    Set::new(
        |k: (Seq<char>, u32)|
            exists|i: int| 0 <= i < words.len() && word_key(#[trigger] words[i]) == Some(k),
    )
}

/// The rows whose key is not known, each under its key.
pub open spec fn candidates_of(rws: Seq<(u32, Seq<char>)>, known: Set<(Seq<char>, u32)>) -> Set<
    ((Seq<char>, u32), Seq<char>),
> {
    Set::new(
        |c: ((Seq<char>, u32), Seq<char>)|
            exists|i: int|
                0 <= i < rws.len() && c == (key_of(#[trigger] rws[i]), rws[i].1) && !known.contains(
                    c.0,
                ),
    )
}

/// The keys of the rows that are not known: those of the words to add.
pub open spec fn new_keys(rws: Seq<(u32, Seq<char>)>, known: Set<(Seq<char>, u32)>) -> Set<
    (Seq<char>, u32),
> {
    Set::new(
        |k: (Seq<char>, u32)|
            exists|i: int| 0 <= i < rws.len() && k == key_of(#[trigger] rws[i]) && !known.contains(k),
    )
}

/// The keys of the words from position `from` on.
pub open spec fn keys_from(words: Seq<WordView>, from: int) -> Seq<(Seq<char>, u32)> {
    Seq::new((words.len() - from) as nat, |i: int| word_key(words[from + i]).unwrap())
}

/// Whether a word is a bare word for a key that is not known, and holds in
/// ascending order the written forms that the rows list under its key.
pub open spec fn is_new_word(
    w: WordView,
    rws: Seq<(u32, Seq<char>)>,
    known: Set<(Seq<char>, u32)>,
) -> bool {
    &&& w.meanings.len() == 0
    &&& w.readings.len() == 0
    &&& word_key(w) is Some
    &&& !known.contains(word_key(w).unwrap())
    &&& strictly_sorted::<String>(w.written_forms)
    &&& forall|f: Seq<char>|
        #![trigger w.written_forms.contains(f)]
        #![trigger rws.contains((w.jmdict_id.unwrap(), f))]
        w.written_forms.contains(f) <==> rws.contains((w.jmdict_id.unwrap(), f)) && folded(f)
            == word_key(w).unwrap().0
}

/// Whether `after` is `before` brought up to date with the rows `rws`: the
/// words of `before` stand untouched and in place, and behind them one bare
/// word for each key of the rows that no word of `before` has. The new words
/// stand in ascending order of their keys and have the ids that follow the
/// largest id of `before`. Each holds, in ascending order, the written forms
/// that the rows list under its key.
pub open spec fn extends(
    before: WordfileView,
    after: WordfileView,
    rws: Seq<(u32, Seq<char>)>,
    version: Seq<char>,
) -> bool {
    let n = before.words.len() as int;
    let known = known_keys(before.words);
    &&& after.header.version == before.header.version
    &&& after.header.jmdict_version == version
    &&& after.words.len() >= n
    &&& after.words.take(n) == before.words
    &&& max_id(before.words) + (after.words.len() - n) <= u32::MAX
    &&& forall|i: int|
        n <= i < after.words.len() ==> (#[trigger] after.words[i]).id == max_id(before.words) + 1
            + (i - n) && is_new_word(after.words[i], rws, known)
    &&& strictly_sorted::<JMdictWordKatakana>(keys_from(after.words, n))
    &&& keys_from(after.words, n).to_set() == new_keys(rws, known)
}

/// The words that groups of candidates become, with the ids that follow `last`.
pub open spec fn words_of(groups: Seq<((Seq<char>, u32), Seq<Seq<char>>)>, last: u32) -> Seq<
    WordView,
> {
    Seq::new(
        groups.len(),
        |p: int| WordView::bare((last + 1 + p) as u32, groups[p].0.1, groups[p].1),
    )
}

/// The keys of groups, in the same order.
pub open spec fn group_keys(groups: Seq<((Seq<char>, u32), Seq<Seq<char>>)>) -> Seq<
    (Seq<char>, u32),
> {
    Seq::new(groups.len(), |g: int| groups[g].0)
}

/// The groups of the candidates have the keys to add, each once and in
/// ascending order.
pub proof fn lemma_group_keys(
    rws: Seq<(u32, Seq<char>)>,
    known: Set<(Seq<char>, u32)>,
    t: Seq<((Seq<char>, u32), Seq<char>)>,
)
    requires
        strictly_sorted::<Candidate>(t),
        t.to_set() == candidates_of(rws, known),
    ensures
        strictly_sorted::<JMdictWordKatakana>(group_keys(grouped(t))),
        group_keys(grouped(t)).to_set() == new_keys(rws, known),
        new_keys(rws, known).finite(),
        new_keys(rws, known).len() == grouped(t).len(),
{
    let groups = grouped(t);
    let fresh_keys = group_keys(groups);
    lemma_grouped(t);
    assert forall|a: int, b: int| 0 <= a < b < fresh_keys.len() implies key_le(
        #[trigger] fresh_keys[a],
        #[trigger] fresh_keys[b],
    ) && fresh_keys[a] != fresh_keys[b] by {
        assert(key_le(groups[a].0, groups[b].0) && groups[a].0 != groups[b].0);
    }
    assert forall|k: (Seq<char>, u32)| fresh_keys.to_set().contains(k) <==> new_keys(
        rws,
        known,
    ).contains(k) by {
        if fresh_keys.to_set().contains(k) {
            let p = choose|p: int| 0 <= p < fresh_keys.len() && fresh_keys[p] == k;
            let f = groups[p].1[0];
            assert(t.contains((groups[p].0, f)));
            assert(t.to_set().contains((k, f)));
            let r = choose|r: int|
                0 <= r < rws.len() && (k, f) == (key_of(#[trigger] rws[r]), rws[r].1)
                    && !known.contains(k);
            assert(k == key_of(rws[r]));
        }
        if new_keys(rws, known).contains(k) {
            let r = choose|r: int|
                0 <= r < rws.len() && k == key_of(#[trigger] rws[r]) && !known.contains(k);
            let c = (k, rws[r].1);
            assert(candidates_of(rws, known).contains(c));
            assert(t.to_set().contains(c));
            let a = choose|a: int| 0 <= a < t.len() && t[a] == c;
            let g = choose|g: int|
                0 <= g < groups.len() && (#[trigger] groups[g]).0 == t[a].0 && groups[g].1.contains(
                    t[a].1,
                );
            assert(fresh_keys[g] == k);
        }
    }
    assert(fresh_keys.to_set() =~= new_keys(rws, known));
    lemma_strictly_sorted_len::<JMdictWordKatakana>(fresh_keys);
}

/// Appending the words of the grouped candidates brings a wordfile up to date.
pub proof fn lemma_groups_extend(
    before: WordfileView,
    after: WordfileView,
    rws: Seq<(u32, Seq<char>)>,
    t: Seq<((Seq<char>, u32), Seq<char>)>,
)
    requires
        strictly_sorted::<Candidate>(t),
        t.to_set() == candidates_of(rws, known_keys(before.words)),
        max_id(before.words) + grouped(t).len() <= u32::MAX,
        after.header.version == before.header.version,
        after.words == before.words + words_of(grouped(t), max_id(before.words) as u32),
    ensures
        extends(before, after, rws, after.header.jmdict_version),
{
    let n = before.words.len() as int;
    let known = known_keys(before.words);
    let groups = grouped(t);
    let last = max_id(before.words) as u32;
    let fresh = words_of(groups, last);
    lemma_grouped(t);
    assert(after.words.take(n) =~= before.words);
    // the key of each group is the key of the word it becomes
    assert forall|p: int| 0 <= p < groups.len() implies word_key(#[trigger] fresh[p]) == Some(
        groups[p].0,
    ) && !known.contains(groups[p].0) by {
        let f = groups[p].1[0];
        assert(t.contains((groups[p].0, f)));
        assert(t.to_set().contains((groups[p].0, f)));
    }
    assert forall|i: int| n <= i < after.words.len() implies (#[trigger] after.words[i]).id
        == max_id(before.words) + 1 + (i - n) && is_new_word(after.words[i], rws, known) by {
        let p = i - n;
        let w = after.words[i];
        assert(w == fresh[p]);
        let key = groups[p].0;
        assert(word_key(fresh[p]) == Some(key) && !known.contains(key));
        assert forall|f: Seq<char>|
            #![trigger w.written_forms.contains(f)]
            #![trigger rws.contains((w.jmdict_id.unwrap(), f))]
            w.written_forms.contains(f) <==> rws.contains((w.jmdict_id.unwrap(), f)) && folded(f)
                == word_key(w).unwrap().0 by {
            if w.written_forms.contains(f) {
                let j = choose|j: int| 0 <= j < groups[p].1.len() && groups[p].1[j] == f;
                assert(t.contains((groups[p].0, groups[p].1[j])));
                assert(t.to_set().contains((key, f)));
                let r = choose|r: int|
                    0 <= r < rws.len() && (key, f) == (key_of(#[trigger] rws[r]), rws[r].1)
                        && !known.contains(key);
                assert(rws[r] == (key.1, f));
            }
            if rws.contains((w.jmdict_id.unwrap(), f)) && folded(f) == word_key(w).unwrap().0 {
                let r = choose|r: int| 0 <= r < rws.len() && rws[r] == (key.1, f);
                assert((key, f) == (key_of(rws[r]), rws[r].1));
                assert(candidates_of(rws, known).contains((key, f)));
                assert(t.to_set().contains((key, f)));
                let a = choose|a: int| 0 <= a < t.len() && t[a] == (key, f);
                let g = choose|g: int|
                    0 <= g < groups.len() && (#[trigger] groups[g]).0 == t[a].0
                        && groups[g].1.contains(t[a].1);
                if g < p {
                    assert(groups[g].0 != groups[p].0);
                }
                if p < g {
                    assert(groups[p].0 != groups[g].0);
                }
            }
        }
    }
    let fresh_keys = keys_from(after.words, n);
    lemma_group_keys(rws, known, t);
    assert forall|p: int| 0 <= p < fresh_keys.len() implies #[trigger] fresh_keys[p]
        == groups[p].0 by {
        assert(after.words[n + p] == fresh[p]);
    }
    assert(fresh_keys =~= group_keys(groups));
}

/// The keys of the words of a wordfile, in ascending order.
fn known_keys_sorted(words: &Vec<Word>) -> (r: Vec<JMdictWordKatakana>)
    ensures
        sorted_by(keys(r@), order_of::<JMdictWordKatakana>()),
        keys(r@).to_set() == known_keys(views(words@)),
{
    let mut all: Vec<JMdictWordKatakana> = Vec::new();
    let mut i: usize = 0;
    let ghost entries = views(words@);
    assert(keys(all@).to_set() =~= known_keys(entries.take(0)));
    while i < words.len()
        invariant
            i <= words.len(),
            entries == views(words@),
            keys(all@).to_set() == known_keys(entries.take(i as int)),
        decreases words.len() - i,
    {
        let ghost prev = keys(all@);
        let ghost w = entries[i as int];
        let word = &words[i];
        let mut added = false;
        if word.written_forms.len() > 0 {
            if let Some(id) = word.jmdict_id {
                let key = JMdictWordKatakana {
                    jmdict_id: id,
                    written_form_katakana: fold(word.written_forms[0].as_str()),
                };
                assert(Some(key@) == word_key(w));
                all.push(key);
                assert(keys(all@) =~= prev.push(key@));
                added = true;
            }
        }
        proof {
            assert(added == (word_key(w) is Some));
            let a = entries.take(i as int);
            let b = entries.take(i + 1);
            assert forall|k: (Seq<char>, u32)| keys(all@).to_set().contains(k) <==> known_keys(
                b,
            ).contains(k) by {
                if added {
                    lemma_push_set(prev, word_key(w).unwrap(), k);
                }
                if known_keys(b).contains(k) {
                    let q = choose|q: int| 0 <= q < b.len() && word_key(#[trigger] b[q]) == Some(k);
                    if q < i {
                        assert(word_key(a[q]) == Some(k));
                    }
                }
                if known_keys(a).contains(k) {
                    let q = choose|q: int| 0 <= q < a.len() && word_key(#[trigger] a[q]) == Some(k);
                    assert(word_key(b[q]) == Some(k));
                }
                if word_key(w) == Some(k) {
                    assert(word_key(b[i as int]) == Some(k));
                }
            }
            assert(keys(all@).to_set() =~= known_keys(b));
        }
        i += 1;
    }
    assert(entries.take(i as int) =~= entries);
    let out = sorted(&all);
    out
}

/// The rows whose key is not known, each under its key.
fn candidates(rows: &Vec<JMdictWordVerbatim>, known: &Vec<JMdictWordKatakana>) -> (r: Vec<
    Candidate,
>)
    requires
        sorted_by(keys(known@), order_of::<JMdictWordKatakana>()),
    ensures
        keys(r@).to_set() == candidates_of(views(rows@), keys(known@).to_set()),
{
    let mut out: Vec<Candidate> = Vec::new();
    let ghost rws = views(rows@);
    let ghost known_set = keys(known@).to_set();
    let mut i: usize = 0;
    assert(keys(out@).to_set() =~= candidates_of(rws.take(0), known_set));
    while i < rows.len()
        invariant
            i <= rows.len(),
            rws == views(rows@),
            known_set == keys(known@).to_set(),
            sorted_by(keys(known@), order_of::<JMdictWordKatakana>()),
            keys(out@).to_set() == candidates_of(rws.take(i as int), known_set),
        decreases rows.len() - i,
    {
        let ghost prev = keys(out@);
        let key = JMdictWordKatakana::from_verbatim(&rows[i]);
        let ghost c = (key@, rws[i as int].1);
        let fresh = find_sorted(known, &key).is_none();
        if fresh {
            out.push(Candidate { key, written_form: rows[i].written_form.clone() });
            assert(keys(out@) =~= prev.push(c));
        }
        proof {
            assert(fresh == !known_set.contains(c.0));
            let a = rws.take(i as int);
            let b = rws.take(i + 1);
            assert forall|x: ((Seq<char>, u32), Seq<char>)|
                keys(out@).to_set().contains(x) <==> candidates_of(b, known_set).contains(x) by {
                if fresh {
                    lemma_push_set(prev, c, x);
                }
                if candidates_of(b, known_set).contains(x) {
                    let q = choose|q: int|
                        0 <= q < b.len() && x == (key_of(#[trigger] b[q]), b[q].1)
                            && !known_set.contains(x.0);
                    if q < i {
                        assert(x == (key_of(a[q]), a[q].1));
                    }
                }
                if candidates_of(a, known_set).contains(x) {
                    let q = choose|q: int|
                        0 <= q < a.len() && x == (key_of(#[trigger] a[q]), a[q].1)
                            && !known_set.contains(x.0);
                    assert(x == (key_of(b[q]), b[q].1));
                }
                if fresh && x == c {
                    assert(x == (key_of(b[i as int]), b[i as int].1));
                }
            }
            assert(keys(out@).to_set() =~= candidates_of(b, known_set));
        }
        i += 1;
    }
    assert(rws.take(i as int) =~= rws);
    out
}

/// The number of groups never falls as candidates are added.
pub proof fn lemma_grouped_len_grows(t: Seq<((Seq<char>, u32), Seq<char>)>, n: int, m: int)
    requires
        0 <= n <= m <= t.len(),
    ensures
        grouped(t.take(n)).len() <= grouped(t.take(m)).len(),
    decreases m - n,
{
    if n < m {
        assert(t.take(m).drop_last() =~= t.take(m - 1));
        lemma_grouped_last(t.take(m));
        lemma_grouped_len_grows(t, n, m - 1);
    }
}

/// Turns candidates in ascending order into words, one for each key, with
/// the ids that follow `last`.
fn group_words(found: &Vec<Candidate>, last: u32) -> (r: Result<Vec<Word>, Error>)
    ensures
        match r {
            Ok(words) => last + grouped(keys(found@)).len() <= u32::MAX && views(words@)
                == words_of(grouped(keys(found@)), last),
            Err(e) => e == Error::OutOfIds && last + grouped(keys(found@)).len() > u32::MAX,
        },
{
    let ghost t = keys(found@);
    let mut words: Vec<Word> = Vec::new();
    let mut i: usize = 0;
    assert(views(words@) =~= words_of(grouped(t.take(0)), last));
    while i < found.len()
        invariant
            i <= found.len(),
            t == keys(found@),
            last + grouped(t.take(i as int)).len() <= u32::MAX,
            views(words@) == words_of(grouped(t.take(i as int)), last),
        decreases found.len() - i,
    {
        let ghost before = grouped(t.take(i as int));
        let ghost prev = views(words@);
        let ghost x = t[i as int];
        proof {
            assert(t.take(i + 1).drop_last() =~= t.take(i as int));
            assert(t.take(i + 1).last() == x);
            if i > 0 {
                lemma_grouped_last(t.take(i as int));
                assert(t.take(i as int).last() == t[i - 1]);
            }
        }
        let same = i > 0 && found[i - 1].key.jmdict_id == found[i].key.jmdict_id && str_eq(
            found[i - 1].key.written_form_katakana.as_str(),
            found[i].key.written_form_katakana.as_str(),
        );
        assert(same == (before.len() > 0 && before.last().0 == x.0));
        assert(words.len() == before.len()) by {
            assert(views(words@).len() == words.len());
        }
        let ghost after = grouped(t.take(i + 1));
        if same {
            let n = words.len();
            let ghost forms = views(words@[n - 1].written_forms@);
            assert(prev[n - 1] == words_of(before, last)[n - 1]);
            words[n - 1].written_forms.push(found[i].written_form.clone());
            proof {
                assert(views(words@[n - 1].written_forms@) =~= forms.push(x.1));
                assert(after.len() == before.len());
                assert(after[n - 1] == (x.0, before[n - 1].1.push(x.1)));
                assert forall|p: int| 0 <= p < n implies #[trigger] views(words@)[p] == words_of(
                    after,
                    last,
                )[p] by {
                    if p < n - 1 {
                        assert(views(words@)[p] == prev[p]);
                        assert(after[p] == before[p]);
                    }
                }
                assert(views(words@) =~= words_of(after, last));
            }
        } else {
            assert(after.len() == before.len() + 1);
            if words.len() >= (u32::MAX - last) as usize {
                proof {
                    lemma_grouped_len_grows(t, i + 1, t.len() as int);
                    assert(t.take(t.len() as int) =~= t);
                }
                return Err(Error::OutOfIds);
            }
            let word = Word {
                id: last + 1 + words.len() as u32,
                jmdict_id: Some(found[i].key.jmdict_id),
                written_forms: vec![found[i].written_form.clone()],
                meanings: Vec::new(),
                readings: Vec::new(),
            };
            proof {
                assert(views(word.written_forms@) =~= seq![x.1]);
                assert(views(word.meanings@) =~= Seq::<Seq<char>>::empty());
                assert(views(word.readings@) =~= Seq::<crate::wordfile::ReadingView>::empty());
            }
            words.push(word);
            proof {
                assert(views(words@) =~= prev.push(word@));
                assert(views(words@) =~= words_of(grouped(t.take(i + 1)), last));
            }
        }
        i += 1;
    }
    assert(t.take(i as int) =~= t);
    Ok(words)
}

/// The largest id among the words, 0 where there is none.
fn largest_id(words: &Vec<Word>) -> (r: u32)
    ensures
        r == max_id(views(words@)),
{
    let mut best: u32 = 0;
    let mut i: usize = 0;
    assert(views(words@).take(0) =~= Seq::<WordView>::empty());
    while i < words.len()
        invariant
            i <= words.len(),
            best == max_id(views(words@).take(i as int)),
        decreases words.len() - i,
    {
        assert(views(words@).take(i + 1).drop_last() =~= views(words@).take(i as int));
        if words[i].id > best {
            best = words[i].id;
        }
        i += 1;
    }
    assert(views(words@).take(i as int) =~= views(words@));
    best
}

/// Bringing a wordfile up to date changes no word that it held, gives every
/// new word an id above all of them, and keeps the ids free of repeats.
pub proof fn lemma_extends_keeps_identity(
    before: WordfileView,
    after: WordfileView,
    rws: Seq<(u32, Seq<char>)>,
    version: Seq<char>,
)
    requires
        extends(before, after, rws, version),
    ensures
        forall|i: int| 0 <= i < before.words.len() ==> after.words[i] == before.words[i],
        forall|i: int|
            before.words.len() <= i < after.words.len() ==> (#[trigger] after.words[i]).id > max_id(
                before.words,
            ),
        unique_ids(before.words) ==> unique_ids(after.words),
{
    let n = before.words.len() as int;
    assert forall|i: int| 0 <= i < n implies after.words[i] == before.words[i] by {
        assert(after.words.take(n)[i] == after.words[i]);
    }
    if unique_ids(before.words) {
        assert forall|i: int, j: int| 0 <= i < j < after.words.len() implies (
        #[trigger] after.words[i]).id != (#[trigger] after.words[j]).id by {
            if j < n {
                assert(before.words[i].id != before.words[j].id);
            } else if i < n {
                lemma_max_id_bounds(before.words, i);
            }
        }
    }
}

/// There is one way only to bring a wordfile up to date with given rows.
pub proof fn lemma_extends_is_unique(
    before: WordfileView,
    one: WordfileView,
    other: WordfileView,
    rws: Seq<(u32, Seq<char>)>,
    version: Seq<char>,
)
    requires
        extends(before, one, rws, version),
        extends(before, other, rws, version),
    ensures
        one == other,
{
    let n = before.words.len() as int;
    lemma_strictly_sorted_unique::<JMdictWordKatakana>(
        keys_from(one.words, n),
        keys_from(other.words, n),
    );
    assert(one.words.len() == other.words.len()) by {
        assert(keys_from(one.words, n).len() == keys_from(other.words, n).len());
    }
    assert forall|i: int| 0 <= i < one.words.len() implies one.words[i] == other.words[i] by {
        if i < n {
            assert(one.words.take(n)[i] == other.words.take(n)[i]);
        } else {
            let a = one.words[i];
            let b = other.words[i];
            assert(keys_from(one.words, n)[i - n] == keys_from(other.words, n)[i - n]);
            assert(word_key(a) == word_key(b));
            assert(a.jmdict_id == b.jmdict_id);
            assert forall|f: Seq<char>|
                a.written_forms.to_set().contains(f) <==> b.written_forms.to_set().contains(f) by {
                assert(a.written_forms.contains(f) <==> rws.contains((a.jmdict_id.unwrap(), f))
                    && folded(f) == word_key(a).unwrap().0);
                assert(b.written_forms.contains(f) <==> rws.contains((b.jmdict_id.unwrap(), f))
                    && folded(f) == word_key(b).unwrap().0);
            }
            assert(a.written_forms.to_set() =~= b.written_forms.to_set());
            lemma_strictly_sorted_unique::<String>(a.written_forms, b.written_forms);
            assert(a.meanings =~= b.meanings);
            assert(a.readings =~= b.readings);
        }
    }
    assert(one.words =~= other.words);
}

/// Updates a wordfile with the words of the JMdict that it lacks.
///
/// Each written form of an entry is matched under the sequence number of the
/// entry and its folding; the written forms that share both are
/// one word. The words that the wordfile holds stay as they are. A bare word
/// follows them for each key that none of them has, in ascending order of the
/// folded written form and then the sequence number, with the ids that follow
/// the largest id in use; the header takes the given version of the JMdict.
/// Where a sequence number is no number or the ids do not suffice, nothing
/// changes.
pub fn update(wordfile: &mut Wordfile, jmdict: JMdict, jmdict_version: String) -> (r: Result<
    (),
    Error,
>)
    ensures
        match r {
            Ok(()) => {
                &&& first_invalid(jmdict@.entry) is None
                &&& extends(
                    old(wordfile)@,
                    final(wordfile)@,
                    rows(jmdict@.entry),
                    jmdict_version@,
                )
            },
            Err(Error::InvalidId { entry }) => {
                &&& first_invalid(jmdict@.entry) == Some(entry as int)
                &&& *final(wordfile) == *old(wordfile)
            },
            Err(Error::OutOfIds) => {
                &&& first_invalid(jmdict@.entry) is None
                &&& max_id(old(wordfile)@.words) + new_keys(
                    rows(jmdict@.entry),
                    known_keys(old(wordfile)@.words),
                ).len() > u32::MAX
                &&& *final(wordfile) == *old(wordfile)
            },
        },
        first_invalid(jmdict@.entry) is None ==> new_keys(
            rows(jmdict@.entry),
            known_keys(old(wordfile)@.words),
        ).finite(),
        r is Ok ==> max_id(old(wordfile)@.words) + new_keys(
            rows(jmdict@.entry),
            known_keys(old(wordfile)@.words),
        ).len() <= u32::MAX,
        final(wordfile)@.words.len() >= old(wordfile)@.words.len(),
        forall|i: int|
            0 <= i < old(wordfile)@.words.len() ==> final(wordfile)@.words[i]
                == old(wordfile)@.words[i],
        forall|i: int|
            old(wordfile)@.words.len() <= i < final(wordfile)@.words.len()
                ==> (#[trigger] final(wordfile)@.words[i]).id > max_id(old(wordfile)@.words),
        unique_ids(old(wordfile)@.words) ==> unique_ids(final(wordfile)@.words),
{
    let ghost before = wordfile@;
    let found = match process_jmdict(&jmdict) {
        Ok(found) => found,
        Err(e) => {
            return Err(e);
        },
    };
    let ghost rws = views(found@);
    let known = known_keys_sorted(&wordfile.words);
    let new = candidates(&found, &known);
    let ascending = sorted_set(&new);
    let last = largest_id(&wordfile.words);
    proof {
        lemma_group_keys(rws, known_keys(before.words), keys(ascending@));
    }
    let mut words = match group_words(&ascending, last) {
        Ok(words) => words,
        Err(e) => {
            return Err(e);
        },
    };
    let ghost fresh = views(words@);
    let ghost held = views(wordfile.words@);
    wordfile.words.append(&mut words);
    wordfile.header.jmdict_version = jmdict_version;
    proof {
        assert(views(wordfile.words@) =~= held + fresh);
        lemma_groups_extend(before, wordfile@, rws, keys(ascending@));
        lemma_extends_keeps_identity(before, wordfile@, rws, jmdict_version@);
    }
    Ok(())
}

/// Creates the skeleton of a wordfile: one bare word for each key of the
/// JMdict, with no version of its own yet.
pub fn create(jmdict: JMdict, jmdict_version: String) -> (r: Result<Wordfile, Error>)
    ensures
        match r {
            Ok(wf) => {
                &&& first_invalid(jmdict@.entry) is None
                &&& extends(WordfileView::blank(), wf@, rows(jmdict@.entry), jmdict_version@)
                &&& unique_ids(wf@.words)
            },
            Err(Error::InvalidId { entry }) => first_invalid(jmdict@.entry) == Some(entry as int),
            Err(Error::OutOfIds) => {
                &&& first_invalid(jmdict@.entry) is None
                &&& new_keys(rows(jmdict@.entry), Set::empty()).len() > u32::MAX
            },
        },
        r is Ok ==> new_keys(rows(jmdict@.entry), Set::empty()).len() <= u32::MAX,
{
    let mut skeleton = Wordfile {
        header: Header { version: String::new(), jmdict_version: String::new() },
        words: Vec::new(),
    };
    proof {
        assert(views(skeleton.words@) =~= Seq::<WordView>::empty());
        assert(skeleton@ == WordfileView::blank());
        assert(known_keys(Seq::<WordView>::empty()) =~= Set::<(Seq<char>, u32)>::empty());
    }
    match update(&mut skeleton, jmdict, jmdict_version) {
        Ok(()) => Ok(skeleton),
        Err(e) => Err(e),
    }
}

} // verus!
