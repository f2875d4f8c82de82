//! Text as it is compared, ordered, searched and folded, and the numbers it
//! denotes.

use crate::ordered::{keys, Ordered};
use vstd::prelude::*;
use vstd::string::StringSliceAdditionalSpecFns;
use wana_kana::ConvertJapanese;

verus! {

/// Whether the bytes `a`, read from position `i` on, come no later than `b`
/// read from the same position, in dictionary order.
pub open spec fn bytes_le_from(a: Seq<u8>, b: Seq<u8>, i: int) -> bool
    decreases a.len() - i,
{
    if i < 0 || i >= a.len() {
        true
    } else if i >= b.len() {
        false
    } else if a[i] != b[i] {
        a[i] < b[i]
    } else {
        bytes_le_from(a, b, i + 1)
    }
}

/// Dictionary order on byte strings.
pub open spec fn bytes_le(a: Seq<u8>, b: Seq<u8>) -> bool {
    bytes_le_from(a, b, 0)
}

/// The order of texts: dictionary order of their UTF-8 encodings, which is the
/// order in which `String` values compare.
pub open spec fn text_le(a: Seq<char>, b: Seq<char>) -> bool {
    bytes_le(vstd::utf8::encode_utf8(a), vstd::utf8::encode_utf8(b))
}

/// Whether `a` comes no later than `b` in the order of texts.
pub fn str_le(a: &str, b: &str) -> (r: bool)
    ensures
        r == text_le(a@, b@),
{
    let x = a.as_bytes();
    let y = b.as_bytes();
    let mut i: usize = 0;
    while i < x.len() && i < y.len()
        invariant
            i <= x.len(),
            i <= y.len(),
            x@ == a.spec_bytes(),
            y@ == b.spec_bytes(),
            bytes_le(x@, y@) == bytes_le_from(x@, y@, i as int),
        decreases x.len() - i,
    {
        if x[i] != y[i] {
            return x[i] < y[i];
        }
        i += 1;
    }
    i >= x.len()
}

/// Two byte strings that agree before position `i` and come no later than each
/// other from there on are the same.
proof fn lemma_bytes_le_antisymmetric_from(a: Seq<u8>, b: Seq<u8>, i: int)
    requires
        0 <= i,
        i <= a.len(),
        i <= b.len(),
        forall|k: int| 0 <= k < i ==> a[k] == b[k],
        bytes_le_from(a, b, i),
        bytes_le_from(b, a, i),
    ensures
        a == b,
    decreases a.len() - i,
{
    if i >= a.len() {
        assert(i >= b.len());
        assert(a =~= b);
    } else {
        assert(i < b.len());
        assert(a[i] == b[i]);
        lemma_bytes_le_antisymmetric_from(a, b, i + 1);
    }
}

proof fn lemma_bytes_le_transitive_from(a: Seq<u8>, b: Seq<u8>, c: Seq<u8>, i: int)
    requires
        0 <= i,
        bytes_le_from(a, b, i),
        bytes_le_from(b, c, i),
    ensures
        bytes_le_from(a, c, i),
    decreases a.len() - i,
{
    if i < a.len() {
        if a[i] == b[i] && b[i] == c[i] {
            lemma_bytes_le_transitive_from(a, b, c, i + 1);
        }
    }
}

proof fn lemma_bytes_le_connected_from(a: Seq<u8>, b: Seq<u8>, i: int)
    requires
        0 <= i,
    ensures
        bytes_le_from(a, b, i) || bytes_le_from(b, a, i),
    decreases a.len() - i,
{
    if i < a.len() && i < b.len() && a[i] == b[i] {
        lemma_bytes_le_connected_from(a, b, i + 1);
    }
}

proof fn lemma_bytes_le_reflexive_from(a: Seq<u8>, i: int)
    requires
        0 <= i,
    ensures
        bytes_le_from(a, a, i),
    decreases a.len() - i,
{
    if i < a.len() {
        lemma_bytes_le_reflexive_from(a, i + 1);
    }
}

/// Every text comes no later than itself.
pub proof fn lemma_text_le_reflexive(a: Seq<char>)
    ensures
        text_le(a, a),
{
    lemma_bytes_le_reflexive_from(vstd::utf8::encode_utf8(a), 0);
}

/// Two texts that come no later than each other are the same text.
pub proof fn lemma_text_le_antisymmetric(a: Seq<char>, b: Seq<char>)
    requires
        text_le(a, b),
        text_le(b, a),
    ensures
        a == b,
{
    let x = vstd::utf8::encode_utf8(a);
    let y = vstd::utf8::encode_utf8(b);
    lemma_bytes_le_antisymmetric_from(x, y, 0);
    vstd::utf8::encode_utf8_decode_utf8(a);
    vstd::utf8::encode_utf8_decode_utf8(b);
}

/// The order of texts is transitive.
pub proof fn lemma_text_le_transitive(a: Seq<char>, b: Seq<char>, c: Seq<char>)
    requires
        text_le(a, b),
        text_le(b, c),
    ensures
        text_le(a, c),
{
    lemma_bytes_le_transitive_from(
        vstd::utf8::encode_utf8(a),
        vstd::utf8::encode_utf8(b),
        vstd::utf8::encode_utf8(c),
        0,
    );
}

/// Of two texts, one comes no later than the other.
pub proof fn lemma_text_le_connected(a: Seq<char>, b: Seq<char>)
    ensures
        text_le(a, b) || text_le(b, a),
{
    lemma_bytes_le_connected_from(vstd::utf8::encode_utf8(a), vstd::utf8::encode_utf8(b), 0);
}

/// Strings are ranked by the text they hold, in the order of texts.
impl Ordered for String {
    type K = Seq<char>;

    open spec fn key(&self) -> Seq<char> {
        self@
    }

    open spec fn le(a: Seq<char>, b: Seq<char>) -> bool {
        text_le(a, b)
    }

    proof fn lemma_le_reflexive(a: Seq<char>) {
        lemma_text_le_reflexive(a);
    }

    proof fn lemma_le_antisymmetric(a: Seq<char>, b: Seq<char>) {
        lemma_text_le_antisymmetric(a, b);
    }

    proof fn lemma_le_transitive(a: Seq<char>, b: Seq<char>, c: Seq<char>) {
        lemma_text_le_transitive(a, b, c);
    }

    proof fn lemma_le_connected(a: Seq<char>, b: Seq<char>) {
        lemma_text_le_connected(a, b);
    }

    fn precedes(&self, other: &Self) -> (r: bool) {
        str_le(self.as_str(), other.as_str())
    }

    fn duplicate(&self) -> (r: Self) {
        self.clone()
    }
}

/// What `wana_kana` makes of a text when asked for katakana.
pub uninterp spec fn katakana(text: Seq<char>) -> Seq<char>;

/// Turns a text into katakana.
///
/// Calls `wana_kana::ConvertJapanese::to_katakana` on the text. The result is
/// taken to depend on the text alone; nothing else is claimed of it.
#[verifier::external_body]
fn to_katakana(text: &str) -> (r: String)
    ensures
        r@ == katakana(text@),
{
    text.to_katakana()
}

/// Whether a code point is one of kana: of the hiragana block, the katakana
/// block, the phonetic extensions of katakana or the half-width katakana.
pub open spec fn is_kana_code(c: u32) -> bool {
    ||| 0x3040 <= c <= 0x309F
    ||| 0x30A0 <= c <= 0x30FF
    ||| 0x31F0 <= c <= 0x31FF
    ||| 0xFF65 <= c <= 0xFF9F
}

/// Whether a character is one of kana.
pub fn is_kana(c: char) -> (r: bool)
    ensures
        r == is_kana_code(c as u32),
{
    let code: u32 = c as u32;
    (0x3040 <= code && code <= 0x309F) || (0x30A0 <= code && code <= 0x30FF) || (0x31F0 <= code
        && code <= 0x31FF) || (0xFF65 <= code && code <= 0xFF9F)
}

/// Whether a text holds kana.
pub open spec fn holds_kana(text: Seq<char>) -> bool {
    exists|i: int| 0 <= i < text.len() && is_kana_code(#[trigger] text[i] as u32)
}

/// The folding of a text, under which written forms are matched: a text that
/// holds kana is turned into katakana, any other text is its own folding.
pub open spec fn folded(text: Seq<char>) -> Seq<char> {
    if holds_kana(text) {
        katakana(text)
    } else {
        text
    }
}

/// Folds a text: turns it into katakana where it holds kana and returns it as
/// it is where it holds none.
pub fn fold(text: &str) -> (r: String)
    ensures
        r@ == folded(text@),
{
    let chars = chars_of(text);
    let mut i: usize = 0;
    while i < chars.len()
        invariant
            i <= chars.len(),
            chars@ == text@,
            forall|k: int| 0 <= k < i ==> !is_kana_code(#[trigger] text@[k] as u32),
        decreases chars.len() - i,
    {
        if is_kana(chars[i]) {
            assert(is_kana_code(text@[i as int] as u32));
            return to_katakana(text);
        }
        i += 1;
    }
    text.to_owned()
}

/// The views of a sequence of values, in the same order.
pub open spec fn views<T: View>(s: Seq<T>) -> Seq<T::V> {
    Seq::new(s.len(), |i: int| s[i]@)
}

/// The keys by which strings are ranked are the texts they hold.
pub proof fn lemma_keys_are_views(s: Seq<String>)
    ensures
        keys::<String>(s) == views(s),
{
    assert(keys::<String>(s) =~= views(s));
}

/// A copy of a list of strings.
pub fn clone_texts(v: &Vec<String>) -> (r: Vec<String>)
    ensures
        views(r@) == views(v@),
{
    let mut out: Vec<String> = Vec::new();
    let mut i: usize = 0;
    while i < v.len()
        invariant
            i <= v.len(),
            out.len() == i,
            forall|k: int| 0 <= k < i ==> out@[k]@ == v@[k]@,
        decreases v.len() - i,
    {
        out.push(v[i].clone());
        i += 1;
    }
    assert(views(out@) =~= views(v@));
    out
}

/// Whether a list of strings holds the text of `x`.
pub fn contains_text(v: &Vec<String>, x: &str) -> (r: bool)
    ensures
        r == views(v@).contains(x@),
{
    let mut i: usize = 0;
    while i < v.len()
        invariant
            i <= v.len(),
            forall|k: int| 0 <= k < i ==> views(v@)[k] != x@,
        decreases v.len() - i,
    {
        if str_eq(v[i].as_str(), x) {
            assert(views(v@)[i as int] == x@);
            return true;
        }
        i += 1;
    }
    false
}

/// Whether two strings hold the same text.
pub fn str_eq(a: &str, b: &str) -> (r: bool)
    ensures
        r == (a@ == b@),
{
    let x = a.as_bytes();
    let y = b.as_bytes();
    proof {
        vstd::utf8::encode_utf8_decode_utf8(a@);
        vstd::utf8::encode_utf8_decode_utf8(b@);
    }
    if x.len() != y.len() {
        return false;
    }
    let mut i: usize = 0;
    while i < x.len()
        invariant
            i <= x.len(),
            x.len() == y.len(),
            x@ == a.spec_bytes(),
            y@ == b.spec_bytes(),
            forall|k: int| 0 <= k < i ==> x@[k] == y@[k],
        decreases x.len() - i,
    {
        if x[i] != y[i] {
            return false;
        }
        i += 1;
    }
    assert(x@ =~= y@);
    true
}

/// The characters of a string, one by one.
pub fn chars_of(s: &str) -> (r: Vec<char>)
    ensures
        r@ == s@,
{
    let mut out: Vec<char> = Vec::new();
    for c in it: s.chars()
        invariant
            it.seq() == s@,
            out@ == s@.take(it.index() as int),
    {
        out.push(c);
        assert(s@.take(it.index() + 1) =~= s@.take(it.index() as int).push(c));
    }
    assert(s@.take(s@.len() as int) =~= s@);
    out
}

/// The value of a decimal digit.
pub open spec fn digit_value(c: char) -> Option<int> {
    if '0' as u32 <= c as u32 <= '9' as u32 {
        Some(c as u32 - '0' as u32)
    } else {
        None
    }
}

/// The number that a run of decimal digits denotes; none where a character is
/// no digit.
pub open spec fn digits_value(s: Seq<char>) -> Option<int>
    decreases s.len(),
{
    if s.len() == 0 {
        Some(0)
    } else {
        match (digits_value(s.drop_last()), digit_value(s.last())) {
            (Some(v), Some(d)) => Some(10 * v + d),
            _ => None,
        }
    }
}

/// The number that a text denotes: decimal digits, at least one, which a
/// single `+` may precede, and a value that fits 32 bits.
pub open spec fn decimal_u32(s: Seq<char>) -> Option<u32> {
    let digits = if s.len() > 0 && s[0] == '+' {
        s.drop_first()
    } else {
        s
    };
    if digits.len() == 0 {
        None
    } else {
        match digits_value(digits) {
            Some(v) => if v <= u32::MAX {
                Some(v as u32)
            } else {
                None
            },
            None => None,
        }
    }
}

proof fn lemma_digits_value_grows(s: Seq<char>, n: int, m: int)
    requires
        0 <= n <= m <= s.len(),
    ensures
        match digits_value(s.take(m)) {
            Some(w) => match digits_value(s.take(n)) {
                Some(v) => 0 <= v <= w,
                None => false,
            },
            None => true,
        },
    decreases m - n,
{
    if n < m {
        assert(s.take(m).drop_last() =~= s.take(m - 1));
        lemma_digits_value_grows(s, n, m - 1);
    } else {
        lemma_digits_value_positive(s.take(n));
    }
}

proof fn lemma_digits_value_positive(s: Seq<char>)
    ensures
        match digits_value(s) {
            Some(v) => 0 <= v,
            None => true,
        },
    decreases s.len(),
{
    if s.len() > 0 {
        lemma_digits_value_positive(s.drop_last());
    }
}

/// Reads a number in decimal digits.
pub fn parse_u32(s: &str) -> (r: Option<u32>)
    ensures
        r == decimal_u32(s@),
{
    let chars = chars_of(s);
    let start: usize = if chars.len() > 0 && chars[0] == '+' {
        1
    } else {
        0
    };
    let ghost digits = chars@.skip(start as int);
    assert(digits =~= if s@.len() > 0 && s@[0] == '+' {
        s@.drop_first()
    } else {
        s@
    });
    if start >= chars.len() {
        return None;
    }
    let mut value: u64 = 0;
    let mut i: usize = start;
    assert(digits.take(0) =~= Seq::<char>::empty());
    while i < chars.len()
        invariant
            start <= i <= chars.len(),
            digits == chars@.skip(start as int),
            digits.len() > 0,
            digits == if s@.len() > 0 && s@[0] == '+' {
                s@.drop_first()
            } else {
                s@
            },
            digits_value(digits.take(i - start)) == Some(value as int),
            value <= u32::MAX,
        decreases chars.len() - i,
    {
        let code: u32 = chars[i] as u32;
        proof {
            assert(digits.take(i - start + 1).drop_last() =~= digits.take(i - start));
            assert(digits.take(i - start + 1).last() == chars@[i as int]);
            lemma_digits_value_grows(digits, i - start + 1, digits.len() as int);
            assert(digits.take(digits.len() as int) =~= digits);
        }
        if code < '0' as u32 || code > '9' as u32 {
            return None;
        }
        value = value * 10 + (code - '0' as u32) as u64;
        if value > u32::MAX as u64 {
            return None;
        }
        i += 1;
    }
    assert(digits.take(i - start) =~= digits);
    Some(value as u32)
}

/// The number of bytes that a text takes in UTF-8.
pub open spec fn byte_len(text: Seq<char>) -> nat {
    vstd::utf8::encode_utf8(text).len()
}

/// A text made of two takes the bytes of both.
pub proof fn lemma_byte_len_concat(a: Seq<char>, b: Seq<char>)
    ensures
        byte_len(a + b) == byte_len(a) + byte_len(b),
    decreases a.len(),
{
    if a.len() == 0 {
        assert(a + b =~= b);
    } else {
        assert((a + b).drop_first() =~= a.drop_first() + b);
        lemma_byte_len_concat(a.drop_first(), b);
    }
}

/// Whether `part` stands in `line` at position `at`.
pub open spec fn stands_at(line: Seq<char>, part: Seq<char>, at: int) -> bool {
    0 <= at && at + part.len() <= line.len() && line.subrange(at, at + part.len()) == part
}

/// Whether `part` stands in `line` at position `at` and nowhere before.
pub open spec fn stands_first_at(line: Seq<char>, part: Seq<char>, at: int) -> bool {
    stands_at(line, part, at) && forall|k: int| 0 <= k < at ==> !stands_at(line, part, k)
}

/// Whether `part` stands somewhere in `line`.
pub open spec fn holds(line: Seq<char>, part: Seq<char>) -> bool {
    exists|at: int| stands_at(line, part, at)
}

/// Where `part` stands first in `line`.
pub fn find_first(line: &Vec<char>, part: &Vec<char>) -> (r: Option<usize>)
    ensures
        match r {
            Some(at) => stands_first_at(line@, part@, at as int),
            None => !holds(line@, part@),
        },
{
    if part.len() > line.len() {
        return None;
    }
    let last: usize = line.len() - part.len();
    let mut at: usize = 0;
    while at <= last
        invariant
            at <= last + 1,
            last == line.len() - part.len(),
            forall|k: int| 0 <= k < at ==> !stands_at(line@, part@, k),
        decreases last + 1 - at,
    {
        let mut i: usize = 0;
        while i < part.len() && line[at + i] == part[i]
            invariant
                i <= part.len(),
                at + part.len() <= line.len(),
                forall|k: int| 0 <= k < i ==> line@[at + k] == part@[k],
            decreases part.len() - i,
        {
            i += 1;
        }
        if i == part.len() {
            assert(line@.subrange(at as int, at + part.len()) =~= part@);
            return Some(at);
        }
        assert(!stands_at(line@, part@, at as int)) by {
            if stands_at(line@, part@, at as int) {
                assert(line@.subrange(at as int, at + part.len())[i as int] == part@[i as int]);
            }
        }
        at += 1;
    }
    None
}

} // verus!
